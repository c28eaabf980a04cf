//! The encoder: stripes writes through a `Data` array and keeps one Hamming
//! parity bit per completed layer on each parity disk.
use vstd::prelude::*;
use crate::data::{
    Data,
    current_layer,
    lemma_current_layer_monotone,
    lemma_disk_count_bound,
    lemma_disks,
    lemma_started_layer_complete,
};
use crate::disk::{Disk, DiskType};
use crate::hamming::{
    add_bits,
    calculate_parity_bits,
    extended,
    get_power_of_two,
    is_parity_count,
    lemma_floor_log2_two_pow,
    lemma_parity_count_unique,
    lemma_parity_positions,
    lemma_two_pow_monotone,
    parity_bits_count,
    parity_of,
    two_pow,
};
use crate::RaidError;

verus! {

/// The bits of layer `layer` of `bits` striped over `d` disks.
pub open spec fn layer_bits(bits: Seq<bool>, d: nat, layer: nat) -> Seq<bool> {
    bits.subrange((layer * d) as int, (layer * d + d) as int)
}

/// Parity bit `k` of layer `layer`: the Hamming parity at position `2^k - 1`
/// of the layer's codeword with `r` parity bits.
pub open spec fn layer_parity(bits: Seq<bool>, d: nat, r: nat, layer: nat, k: nat) -> bool {
    parity_of(extended(layer_bits(bits, d, layer), r), k)
}

/// A `Data` array together with its parity disks.
pub struct Raid {
    data: Data,
    parity_disks: Vec<Disk>,
    parity_count: usize,
    first_layer: Ghost<nat>,
}

impl Raid {
    /// The array whose layers are encoded.
    pub closed spec fn spec_data(&self) -> Data {
        self.data
    }

    pub closed spec fn spec_parity_count(&self) -> nat {
        self.parity_count as nat
    }

    /// The first layer encoded: the layer counter of the array when the
    /// encoder was made.
    pub closed spec fn spec_first_layer(&self) -> nat {
        self.first_layer@
    }

    /// The capacity parity disk `k` was declared with.
    pub closed spec fn spec_parity_disk_size(&self, k: int) -> nat {
        self.parity_disks@[k].spec_capacity()
    }

    /// What parity disk `k` holds.
    pub closed spec fn spec_parity_disk(&self, k: int) -> Seq<bool> {
        self.parity_disks@[k]@
    }

    /// Parity disk `k` holds the parity bit `k` of each layer from the first
    /// encoded one up to `upto`, in layer order.
    pub closed spec fn parity_upto(&self, upto: nat) -> bool {
        let d = self.data.spec_disk_count();
        let r = self.parity_count as nat;
        &&& self.first_layer@ <= upto
        &&& forall|k: int| 0 <= k < r ==> (#[trigger] self.parity_disks@[k])@.len() == upto - self.first_layer@
        &&& forall|k: int, j: int|
            0 <= k < r && 0 <= j < upto - self.first_layer@ ==> #[trigger] self.parity_disks@[k]@[j]
                == layer_parity(self.data@, d, r, (self.first_layer@ + j) as nat, k as nat)
    }

    /// The encoder's invariant.
    pub closed spec fn wf(&self) -> bool {
        &&& self.data.wf()
        &&& self.parity_disks@.len() == self.parity_count
        &&& is_parity_count(self.data.spec_disk_count(), self.parity_count as nat)
        &&& self.parity_count <= 65
        &&& forall|k: int| 0 <= k < self.parity_count ==> (#[trigger] self.parity_disks@[k]).spec_disk_type() == DiskType::Parity
        &&& forall|k: int|
            0 <= k < self.parity_count ==> (#[trigger] self.parity_disks@[k]).spec_capacity()
                == self.data.spec_disk_size(0)
        &&& self.parity_upto(self.data.spec_last_layer())
    }

    /// An encoder over `data`, with as many empty parity disks as a Hamming
    /// code of the array's width needs, each of the data disks' capacity.
    pub fn new(data: Data) -> (r: Self)
        requires
            data.wf(),
        ensures
            r.wf(),
            r.spec_data() == data,
            is_parity_count(data.spec_disk_count(), r.spec_parity_count()),
            r.spec_first_layer() == data.spec_last_layer(),
            forall|k: int|
                0 <= k < r.spec_parity_count() ==> r.spec_parity_disk(k).len() == 0
                    && r.spec_parity_disk_size(k) == data.spec_disk_size(0),
    {
        proof {
            lemma_disks(&data);
        }
        let parity_count = parity_bits_count(data.disk_count());
        let disk_size = data.disk(0).capacity();
        let mut parity_disks: Vec<Disk> = Vec::with_capacity(parity_count);
        let mut i: usize = 0;
        while i < parity_count
            invariant
                i <= parity_count,
                parity_disks@.len() == i,
                forall|j: int|
                    0 <= j < i ==> (#[trigger] parity_disks@[j])@ == Seq::<bool>::empty()
                        && parity_disks@[j].spec_disk_type() == DiskType::Parity
                        && parity_disks@[j].spec_capacity() == disk_size,
                disk_size == data.spec_disk_size(0),
            decreases parity_count - i,
        {
            parity_disks.push(Disk::new(disk_size, DiskType::Parity));
            i = i + 1;
        }
        let ghost first = data.spec_last_layer();
        Raid { data, parity_disks, parity_count, first_layer: Ghost(first) }
    }

    /// Number of parity disks.
    pub fn parity_count(&self) -> (r: usize)
        ensures
            r == self.spec_parity_count(),
    {
        self.parity_count
    }

    /// The array whose layers are encoded.
    pub fn data(&self) -> (r: &Data)
        ensures
            *r == self.spec_data(),
            self.wf() ==> r.wf(),
    {
        &self.data
    }

    /// Gives the array back.
    pub fn into_data(self) -> (r: Data)
        ensures
            r == self.spec_data(),
            self.wf() ==> r.wf(),
    {
        self.data
    }

    /// Parity disk `k`.
    pub fn parity_disk(&self, k: usize) -> (r: &Disk)
        requires
            self.wf(),
            k < self.spec_parity_count(),
        ensures
            r@ == self.spec_parity_disk(k as int),
    {
        &self.parity_disks[k]
    }

    /// Appends to each parity disk `k` the parity bit `k` of the codeword
    /// for `bits`.
    fn encode_single_sequence(&mut self, bits: &[bool])
        requires
            old(self).parity_disks@.len() == old(self).parity_count,
            is_parity_count(bits@.len(), old(self).parity_count as nat),
            bits@.len() > 0,
            bits@.len() <= usize::MAX / 2,
            old(self).parity_count <= 65,
        ensures
            final(self).data == old(self).data,
            final(self).parity_count == old(self).parity_count,
            final(self).first_layer == old(self).first_layer,
            final(self).parity_disks@.len() == old(self).parity_disks@.len(),
            forall|k: int|
                0 <= k < old(self).parity_count ==> (#[trigger] final(self).parity_disks@[k])@
                    == old(self).parity_disks@[k]@.push(
                    parity_of(extended(bits@, old(self).parity_count as nat), k as nat),
                ) && final(self).parity_disks@[k].spec_disk_type()
                    == old(self).parity_disks@[k].spec_disk_type()
                    && final(self).parity_disks@[k].spec_capacity()
                    == old(self).parity_disks@[k].spec_capacity(),
    {
        let ghost r = self.parity_count as nat;
        let ghost before = self.parity_disks@;
        let bits_extra = add_bits(bits);
        proof {
            lemma_parity_count_unique(bits@.len(), r, (bits_extra@.len() - bits@.len()) as nat);
        }
        let parity_bits = calculate_parity_bits(bits_extra.as_slice());
        proof {
            lemma_parity_positions(bits@.len(), r, parity_bits@.len());
        }
        let mut i: usize = 0;
        while i < parity_bits.len()
            invariant
                parity_bits@.len() == r,
                r == self.parity_count,
                r <= 65,
                bits@.len() <= usize::MAX / 2,
                bits_extra@ == extended(bits@, r),
                bits_extra@.len() == bits@.len() + r,
                r > 0 ==> two_pow((r - 1) as nat) <= bits_extra@.len(),
                forall|k: int|
                    0 <= k < parity_bits@.len() ==> parity_bits@[k].0 + 1 == two_pow(k as nat)
                        && parity_bits@[k].1 == parity_of(bits_extra@, k as nat),
                i <= r,
                self.parity_disks@.len() == r,
                before.len() == r,
                self.data == old(self).data,
                self.parity_count == old(self).parity_count,
                self.first_layer == old(self).first_layer,
                forall|k: int|
                    0 <= k < r ==> (#[trigger] self.parity_disks@[k]).spec_disk_type()
                        == before[k].spec_disk_type() && self.parity_disks@[k].spec_capacity()
                        == before[k].spec_capacity(),
                forall|k: int| 0 <= k < i ==> (#[trigger] self.parity_disks@[k])@ == before[k]@.push(
                    parity_of(bits_extra@, k as nat),
                ),
                forall|k: int| i <= k < r ==> (#[trigger] self.parity_disks@[k])@ == before[k]@,
            decreases r - i,
        {
            let (index, value) = parity_bits[i];
            proof {
                lemma_two_pow_monotone(i as nat, (r - 1) as nat);
                lemma_floor_log2_two_pow(i as nat);
            }
            let disk = get_power_of_two(index + 1);
            self.parity_disks[disk].write(value);
            i = i + 1;
        }
    }

    /// Stripes `bits` through the array, then encodes every layer that the
    /// write started the next of, in layer order. Refused with
    /// `CapacityExceeded`, changing nothing, when the array refuses it.
    pub fn write_sequence(&mut self, bits: &[bool]) -> (r: Result<(), RaidError>)
        requires
            old(self).wf(),
        ensures
            final(self).wf(),
            final(self).spec_parity_count() == old(self).spec_parity_count(),
            final(self).spec_first_layer() == old(self).spec_first_layer(),
            final(self).spec_data().spec_disk_count() == old(self).spec_data().spec_disk_count(),
            final(self).spec_data().spec_total_capacity() == old(self).spec_data().spec_total_capacity(),
            final(self).spec_data().spec_disk_size(0) == old(self).spec_data().spec_disk_size(0),
            forall|k: int, j: int|
                0 <= k < old(self).spec_parity_count() && 0 <= j < old(self).spec_parity_disk(k).len()
                    ==> #[trigger] final(self).spec_parity_disk(k)[j] == old(self).spec_parity_disk(k)[j],
            old(self).spec_data()@.len() + bits@.len() >= old(self).spec_data().spec_total_capacity()
                ==> r == Err::<(), RaidError>(RaidError::CapacityExceeded) && *final(self) == *old(self),
            old(self).spec_data()@.len() + bits@.len() < old(self).spec_data().spec_total_capacity()
                ==> r == Ok::<(), RaidError>(()) && final(self).spec_data()@ == old(self).spec_data()@ + bits@,
    {
        let before_layer = self.data.last_layer();
        let ghost old_bits = self.data@;
        let ghost d = self.data.spec_disk_count();
        let ghost pc = self.parity_count as nat;
        proof {
            lemma_disks(&self.data);
        }
        match self.data.write_sequence(bits) {
            Err(_) => Err(RaidError::CapacityExceeded),
            Ok(()) => {
                let after_layer = self.data.last_layer();
                proof {
                    lemma_current_layer_monotone(old_bits.len(), self.data@.len(), d);
                    assert forall|k: int, j: int|
                        0 <= k < pc && 0 <= j < before_layer - self.first_layer@ implies #[trigger] self.parity_disks@[k]@[j] == layer_parity(
                            self.data@,
                            d,
                            pc,
                            (self.first_layer@ + j) as nat,
                            k as nat,
                        ) by {
                        let l = (self.first_layer@ + j) as nat;
                        lemma_started_layer_complete(old_bits.len(), d, l);
                        assert(layer_bits(self.data@, d, l) =~= layer_bits(old_bits, d, l));
                    }
                }
                let ghost written = self.data;
                let mut layer: usize = before_layer;
                while layer < after_layer
                    invariant
                        self.data.wf(),
                        self.data == written,
                        self.first_layer == old(self).first_layer,
                        d > 0,
                        self.data.spec_disk_count() == d,
                        after_layer == self.data.spec_last_layer(),
                        after_layer == current_layer(self.data@.len(), d),
                        before_layer <= layer <= after_layer,
                        self.parity_disks@.len() == self.parity_count,
                        self.parity_count == pc,
                        is_parity_count(d, pc),
                        pc <= 65,
                        forall|k: int| 0 <= k < pc ==> (#[trigger] self.parity_disks@[k]).spec_disk_type() == DiskType::Parity,
                        forall|k: int|
                            0 <= k < pc ==> (#[trigger] self.parity_disks@[k]).spec_capacity()
                                == self.data.spec_disk_size(0),
                        forall|k: int, j: int|
                            0 <= k < pc && 0 <= j < before_layer - self.first_layer@
                                ==> #[trigger] self.parity_disks@[k]@[j] == old(self).parity_disks@[k]@[j],
                        self.parity_upto(layer as nat),
                    decreases after_layer - layer,
                {
                    proof {
                        lemma_started_layer_complete(self.data@.len(), d, layer as nat);
                        lemma_disk_count_bound(&self.data);
                    }
                    let layer_data = match self.data.get_data_layer(layer) {
                        Ok(v) => v,
                        Err(e) => return Err(e),
                    };
                    let ghost before = self.parity_disks@;
                    self.encode_single_sequence(layer_data.as_slice());
                    proof {
                        assert forall|k: int, j: int|
                            0 <= k < pc && 0 <= j < layer + 1 - self.first_layer@ implies #[trigger] self.parity_disks@[k]@[j] == layer_parity(
                                self.data@,
                                d,
                                pc,
                                (self.first_layer@ + j) as nat,
                                k as nat,
                            ) by {
                            assert(self.parity_disks@[k]@ == before[k]@.push(
                                parity_of(extended(layer_data@, pc), k as nat),
                            ));
                            if j < layer - self.first_layer@ {
                                assert(before[k]@[j] == layer_parity(
                                    self.data@,
                                    d,
                                    pc,
                                    (self.first_layer@ + j) as nat,
                                    k as nat,
                                ));
                            }
                        }
                        assert forall|k: int, j: int|
                            0 <= k < pc && 0 <= j < before_layer - self.first_layer@ implies #[trigger] self.parity_disks@[k]@[j]
                                == old(self).parity_disks@[k]@[j] by {
                            assert(self.parity_disks@[k]@ == before[k]@.push(
                                parity_of(extended(layer_data@, pc), k as nat),
                            ));
                            assert(before[k]@[j] == old(self).parity_disks@[k]@[j]);
                        }
                    }
                    layer = layer + 1;
                }
                Ok(())
            },
        }
    }
}

/// The encoder's state as callers see it: the array is well formed, and each
/// parity disk holds one bit for each layer from the first encoded one up to
/// the array's layer counter, within the data disks' capacity.
pub proof fn lemma_raid(raid: &Raid)
    requires
        raid.wf(),
    ensures
        raid.spec_data().wf(),
        is_parity_count(raid.spec_data().spec_disk_count(), raid.spec_parity_count()),
        raid.spec_first_layer() <= raid.spec_data().spec_last_layer(),
        raid.spec_data().spec_last_layer() == current_layer(
            raid.spec_data()@.len(),
            raid.spec_data().spec_disk_count(),
        ),
        forall|k: int|
            0 <= k < raid.spec_parity_count() ==> (#[trigger] raid.spec_parity_disk(k)).len()
                == raid.spec_data().spec_last_layer() - raid.spec_first_layer()
                && raid.spec_parity_disk_size(k) == raid.spec_data().spec_disk_size(0),
{
    assert forall|k: int| 0 <= k < raid.spec_parity_count() implies (#[trigger] raid.spec_parity_disk(
        k,
    )).len() == raid.spec_data().spec_last_layer() - raid.spec_first_layer()
        && raid.spec_parity_disk_size(k) == raid.spec_data().spec_disk_size(0) by {
        lemma_disks(&raid.data);
        assert(raid.parity_disks@[k]@.len() == raid.data.spec_last_layer() - raid.first_layer@);
        assert(raid.parity_disks@[k].spec_capacity() == raid.data.spec_disk_size(0));
    }
    lemma_disks(&raid.data);
}

/// Parity: the `j`-th bit on parity disk `k` is the Hamming parity bit at
/// position `2^k - 1` of the codeword of the `j`-th encoded layer, and that
/// layer is complete.
pub proof fn lemma_parity_correct(raid: &Raid, k: nat, j: nat)
    requires
        raid.wf(),
        k < raid.spec_parity_count(),
        j < raid.spec_parity_disk(k as int).len(),
    ensures
        raid.spec_first_layer() + j < raid.spec_data()@.len() / raid.spec_data().spec_disk_count(),
        raid.spec_parity_disk(k as int)[j as int] == parity_of(
            extended(
                layer_bits(
                    raid.spec_data()@,
                    raid.spec_data().spec_disk_count(),
                    raid.spec_first_layer() + j,
                ),
                raid.spec_parity_count(),
            ),
            k,
        ),
{
    let data = raid.spec_data();
    lemma_disks(&data);
    assert(raid.parity_disks@[k as int]@.len() == data.spec_last_layer() - raid.first_layer@);
    lemma_started_layer_complete(data@.len(), data.spec_disk_count(), raid.first_layer@ + j);
    assert(raid.parity_disks@[k as int]@[j as int] == layer_parity(
        data@,
        data.spec_disk_count(),
        raid.parity_count as nat,
        raid.first_layer@ + j,
        k,
    ));
}

} // verus!
