use vstd::prelude::*;

use crate::record::Log;
use crate::record::LogView;

verus! {

/// Number of bytes in the bloom bit array.
pub const BLOOM_BYTES: usize = 256;

/// Number of bit positions in the bloom bit array.
pub const BLOOM_BITS: usize = 2048;

/// The Keccak-256 digest of a byte string; a function of the bytes alone.
pub uninterp spec fn keccak_of(s: Seq<u8>) -> Seq<u8>;

/// Relies on `alloy_primitives::keccak256` for the Keccak-256 digest of the
/// input: 32 bytes, determined by the input bytes alone.
#[verifier::external_body]
fn keccak256(input: &[u8]) -> (r: Vec<u8>)
    ensures
        r@ == keccak_of(input@),
        r@.len() == 32,
{
    alloy_primitives::keccak256(input).to_vec()
}

/// All bytes zero: the empty filter.
pub open spec fn spec_empty_bloom() -> Seq<u8> {
    Seq::new(BLOOM_BYTES as nat, |i: int| 0u8)
}

/// The single-bit mask for a bit offset within one byte.
pub open spec fn spec_bit_mask(k: nat) -> u8 {
    if k == 0 {
        1
    } else if k == 1 {
        2
    } else if k == 2 {
        4
    } else if k == 3 {
        8
    } else if k == 4 {
        16
    } else if k == 5 {
        32
    } else if k == 6 {
        64
    } else {
        128
    }
}

/// The byte of the array that holds bit `i`: bytes run high to low.
pub open spec fn spec_byte_index(i: nat) -> int {
    BLOOM_BYTES - 1 - i / 8
}

/// Whether bit `i` of the array is set; bits within a byte run low to high.
pub open spec fn spec_bit_set(b: Seq<u8>, i: nat) -> bool {
    b[spec_byte_index(i)] & spec_bit_mask(i % 8) != 0
}

/// The array with bit `i` set and every other bit as it was.
pub open spec fn spec_set_bit(b: Seq<u8>, i: nat) -> Seq<u8> {
    b.update(spec_byte_index(i), b[spec_byte_index(i)] | spec_bit_mask(i % 8))
}

/// The `j`-th of the three bit positions derived from a digest: two
/// adjacent digest bytes read big-endian, reduced to the array's bit space.
pub open spec fn spec_bloom_index(h: Seq<u8>, j: int) -> nat {
    ((h[2 * j] as nat) * 256 + (h[2 * j + 1] as nat)) % (BLOOM_BITS as nat)
}

/// The array after folding one digest in: the three derived bits set.
pub open spec fn spec_accrue(b: Seq<u8>, h: Seq<u8>) -> Seq<u8> {
    spec_set_bit(
        spec_set_bit(spec_set_bit(b, spec_bloom_index(h, 0)), spec_bloom_index(h, 1)),
        spec_bloom_index(h, 2),
    )
}

/// A fixed 2048-bit probabilistic membership filter. Bits only accumulate:
/// an add never clears anything, so membership tests of added inputs have
/// no false negatives.
#[derive(Clone, Debug, PartialEq, Eq)]
pub struct Bloom {
    data: Vec<u8>,
}

impl View for Bloom {
    type V = Seq<u8>;

    closed spec fn view(&self) -> Seq<u8> {
        self.data@
    }
}

/// Returns the mask with only bit `k` of a byte set.
fn bit_mask_of(k: usize) -> (r: u8)
    requires
        k < 8,
    ensures
        r == spec_bit_mask(k as nat),
{
    if k == 0 {
        1
    } else if k == 1 {
        2
    } else if k == 2 {
        4
    } else if k == 3 {
        8
    } else if k == 4 {
        16
    } else if k == 5 {
        32
    } else if k == 6 {
        64
    } else {
        128
    }
}

impl Bloom {
    /// A filter whose byte array has its fixed full size.
    pub open spec fn wf(&self) -> bool {
        self@.len() == BLOOM_BYTES
    }

    /// The empty filter: all bits clear.
    pub fn new() -> (r: Bloom)
        ensures
            r.wf(),
            r@ == spec_empty_bloom(),
    {
        let mut data: Vec<u8> = Vec::new();
        let mut i: usize = 0;
        while i < BLOOM_BYTES
            invariant
                i <= BLOOM_BYTES,
                data@.len() == i,
                forall|k: int| 0 <= k < i ==> data@[k] == 0u8,
            decreases BLOOM_BYTES - i,
        {
            data.push(0u8);
            i += 1;
        }
        assert(data@ =~= spec_empty_bloom());
        Bloom { data }
    }

    fn set_bit(&mut self, i: usize)
        requires
            old(self).wf(),
            i < BLOOM_BITS,
        ensures
            final(self).wf(),
            final(self)@ == spec_set_bit(old(self)@, i as nat),
    {
        let byte_index: usize = BLOOM_BYTES - 1 - i / 8;
        let mask: u8 = bit_mask_of(i % 8);
        self.data[byte_index] = self.data[byte_index] | mask;
        assert(self@ =~= spec_set_bit(old(self)@, i as nat));
    }

    /// Folds one byte string into the filter: derives three bit positions
    /// from its Keccak-256 digest and sets each of them.
    pub fn accrue(&mut self, input: &[u8])
        requires
            old(self).wf(),
        ensures
            final(self).wf(),
            final(self)@ == spec_accrue(old(self)@, keccak_of(input@)),
    {
        let h = keccak256(input);
        let i0: usize = ((h[0] as usize) * 256 + (h[1] as usize)) % BLOOM_BITS;
        let i1: usize = ((h[2] as usize) * 256 + (h[3] as usize)) % BLOOM_BITS;
        let i2: usize = ((h[4] as usize) * 256 + (h[5] as usize)) % BLOOM_BITS;
        assert(i0 == spec_bloom_index(keccak_of(input@), 0));
        assert(i1 == spec_bloom_index(keccak_of(input@), 1));
        assert(i2 == spec_bloom_index(keccak_of(input@), 2));
        self.set_bit(i0);
        self.set_bit(i1);
        self.set_bit(i2);
    }

    /// Whether bit `i` of the filter is set.
    pub fn bit_at(&self, i: usize) -> (r: bool)
        requires
            self.wf(),
            i < BLOOM_BITS,
        ensures
            r == spec_bit_set(self@, i as nat),
    {
        let byte_index: usize = BLOOM_BYTES - 1 - i / 8;
        let mask: u8 = bit_mask_of(i % 8);
        self.data[byte_index] & mask != 0
    }

    /// The raw bytes of the filter, highest-order byte first.
    pub fn bytes(&self) -> (r: &Vec<u8>)
        ensures
            r@ == self@,
    {
        &self.data
    }
}

/// The byte strings one record feeds the filter: its address, then each of
/// its topics, in order.
pub open spec fn spec_log_strings(v: LogView) -> Seq<Seq<u8>> {
    seq![v.address] + v.topics
}

/// The byte strings a batch of records feeds the filter, record by record.
pub open spec fn spec_logs_strings(logs: Seq<LogView>) -> Seq<Seq<u8>>
    decreases logs.len(),
{
    if logs.len() == 0 {
        Seq::empty()
    } else {
        spec_log_strings(logs[0]) + spec_logs_strings(logs.skip(1))
    }
}

/// The filter after folding in the digest of each input string, in order.
pub open spec fn spec_accrue_all(b: Seq<u8>, inputs: Seq<Seq<u8>>) -> Seq<u8>
    decreases inputs.len(),
{
    if inputs.len() == 0 {
        b
    } else {
        spec_accrue_all(spec_accrue(b, keccak_of(inputs[0])), inputs.skip(1))
    }
}

/// The views of a batch of records.
pub open spec fn spec_views(logs: Seq<Log>) -> Seq<LogView> {
    logs.map_values(|l: Log| l@)
}

/// The filter summarizing a batch of records: every record's address and
/// every topic accumulated into an initially empty filter.
pub open spec fn spec_logs_bloom(logs: Seq<LogView>) -> Seq<u8> {
    spec_accrue_all(spec_empty_bloom(), spec_logs_strings(logs))
}

proof fn lemma_accrue_all_append(b: Seq<u8>, xs: Seq<Seq<u8>>, ys: Seq<Seq<u8>>)
    ensures
        spec_accrue_all(b, xs + ys) == spec_accrue_all(spec_accrue_all(b, xs), ys),
    decreases xs.len(),
{
    if xs.len() == 0 {
        assert(xs + ys =~= ys);
    } else {
        assert((xs + ys)[0] == xs[0]);
        assert((xs + ys).skip(1) =~= xs.skip(1) + ys);
        lemma_accrue_all_append(spec_accrue(b, keccak_of(xs[0])), xs.skip(1), ys);
    }
}

proof fn lemma_accrue_all_snoc(b: Seq<u8>, xs: Seq<Seq<u8>>, x: Seq<u8>)
    ensures
        spec_accrue_all(b, xs.push(x)) == spec_accrue(spec_accrue_all(b, xs), keccak_of(x)),
{
    let ss = seq![x];
    assert(xs.push(x) =~= xs + ss);
    lemma_accrue_all_append(b, xs, ss);
    let b2 = spec_accrue_all(b, xs);
    let b3 = spec_accrue(b2, keccak_of(x));
    assert(ss[0] == x);
    assert(ss.skip(1) =~= Seq::<Seq<u8>>::empty());
    assert(spec_accrue_all(b3, ss.skip(1)) == b3);
    assert(spec_accrue_all(b2, ss) == b3);
}

proof fn lemma_logs_strings_snoc(logs: Seq<LogView>)
    requires
        logs.len() > 0,
    ensures
        spec_logs_strings(logs) == spec_logs_strings(logs.drop_last()) + spec_log_strings(
            logs.last(),
        ),
    decreases logs.len(),
{
    if logs.len() == 1 {
        assert(logs.skip(1) =~= Seq::<LogView>::empty());
        assert(logs.drop_last() =~= Seq::<LogView>::empty());
        assert(spec_logs_strings(logs) =~= spec_logs_strings(logs.drop_last())
            + spec_log_strings(logs.last()));
    } else {
        let tail = logs.skip(1);
        lemma_logs_strings_snoc(tail);
        assert(tail.drop_last() =~= logs.drop_last().skip(1));
        assert(tail.last() == logs.last());
        assert(logs.drop_last()[0] == logs[0]);
        assert(spec_logs_strings(logs) =~= spec_logs_strings(logs.drop_last())
            + spec_log_strings(logs.last()));
    }
}

/// Builds the filter summarizing `logs`: each record's address and each of
/// its topics accumulated into an initially empty filter.
pub fn logs_bloom(logs: &Vec<Log>) -> (r: Bloom)
    ensures
        r.wf(),
        r@ == spec_logs_bloom(spec_views(logs@)),
{
    let ghost views = spec_views(logs@);
    let mut bloom = Bloom::new();
    let mut i: usize = 0;
    while i < logs.len()
        invariant
            i <= logs.len(),
            views == spec_views(logs@),
            views.len() == logs@.len(),
            bloom.wf(),
            bloom@ == spec_accrue_all(spec_empty_bloom(), spec_logs_strings(views.take(i as int))),
        decreases logs.len() - i,
    {
        let log = &logs[i];
        assert(log@ == views[i as int]);
        let ghost done = spec_logs_strings(views.take(i as int));
        let ghost mid = done + seq![views[i as int].address];
        bloom.accrue(log.address.as_slice());
        proof {
            lemma_accrue_all_snoc(spec_empty_bloom(), done, views[i as int].address);
            assert(done.push(views[i as int].address) =~= mid);
            assert(bloom@ == spec_accrue_all(spec_empty_bloom(), mid));
        }
        let mut j: usize = 0;
        while j < log.topics.len()
            invariant
                j <= log.topics.len(),
                i < logs.len(),
                log == &logs[i as int],
                log@ == views[i as int],
                views == spec_views(logs@),
                mid == spec_logs_strings(views.take(i as int)) + seq![views[i as int].address],
                bloom.wf(),
                bloom@ == spec_accrue_all(
                    spec_empty_bloom(),
                    mid + views[i as int].topics.take(j as int),
                ),
            decreases log.topics.len() - j,
        {
            let ghost cur = mid + views[i as int].topics.take(j as int);
            bloom.accrue(log.topics[j].as_slice());
            proof {
                lemma_accrue_all_snoc(spec_empty_bloom(), cur, views[i as int].topics[j as int]);
                assert(cur.push(views[i as int].topics[j as int]) =~= mid + views[i as int].topics
                    .take(j + 1));
                assert(bloom@ == spec_accrue_all(
                    spec_empty_bloom(),
                    mid + views[i as int].topics.take(j + 1),
                ));
            }
            j += 1;
        }
        proof {
            assert(views[i as int].topics.take(log.topics.len() as int) =~= views[i as int].topics);
            lemma_logs_strings_snoc(views.take(i + 1));
            assert(views.take(i + 1).drop_last() =~= views.take(i as int));
            assert(views.take(i + 1).last() == views[i as int]);
            assert(mid + views[i as int].topics =~= spec_logs_strings(views.take(i + 1)));
            assert(bloom@ == spec_accrue_all(
                spec_empty_bloom(),
                spec_logs_strings(views.take(i + 1)),
            ));
        }
        i += 1;
    }
    assert(views.take(logs.len() as int) =~= views);
    bloom
}

proof fn lemma_u8_or(v: u8, m1: u8, m2: u8)
    by (bit_vector)
    ensures
        (v | m1) & m1 == m1,
        (v | m1) | m2 == (v | m2) | m1,
        (v | m1) | m1 == v | m1,
        v & m2 != 0 ==> (v | m1) & m2 != 0,
{
}

proof fn lemma_set_bit_sets(b: Seq<u8>, i: nat)
    requires
        b.len() == BLOOM_BYTES,
        i < BLOOM_BITS,
    ensures
        spec_bit_set(spec_set_bit(b, i), i),
{
    let x = spec_byte_index(i);
    assert(spec_bit_mask(i % 8) != 0);
    lemma_u8_or(b[x], spec_bit_mask(i % 8), spec_bit_mask(i % 8));
}

proof fn lemma_set_bit_preserves(b: Seq<u8>, i: nat, j: nat)
    requires
        b.len() == BLOOM_BYTES,
        i < BLOOM_BITS,
        j < BLOOM_BITS,
        spec_bit_set(b, j),
    ensures
        spec_bit_set(spec_set_bit(b, i), j),
{
    let x = spec_byte_index(i);
    let y = spec_byte_index(j);
    if x == y {
        lemma_u8_or(b[y], spec_bit_mask(i % 8), spec_bit_mask(j % 8));
    }
}

proof fn lemma_set_bit_comm(b: Seq<u8>, i: nat, j: nat)
    requires
        b.len() == BLOOM_BYTES,
        i < BLOOM_BITS,
        j < BLOOM_BITS,
    ensures
        spec_set_bit(spec_set_bit(b, i), j) == spec_set_bit(spec_set_bit(b, j), i),
{
    let x = spec_byte_index(i);
    let y = spec_byte_index(j);
    let mi = spec_bit_mask(i % 8);
    let mj = spec_bit_mask(j % 8);
    lemma_u8_or(b[x], mi, mj);
    lemma_u8_or(b[y], mj, mi);
    assert(spec_set_bit(spec_set_bit(b, i), j) =~= spec_set_bit(spec_set_bit(b, j), i));
}

proof fn lemma_set_bit_idem(b: Seq<u8>, i: nat)
    requires
        b.len() == BLOOM_BYTES,
        i < BLOOM_BITS,
    ensures
        spec_set_bit(spec_set_bit(b, i), i) == spec_set_bit(b, i),
{
    lemma_u8_or(b[spec_byte_index(i)], spec_bit_mask(i % 8), spec_bit_mask(i % 8));
    assert(spec_set_bit(spec_set_bit(b, i), i) =~= spec_set_bit(b, i));
}

proof fn lemma_set_bit_accrue_comm(b: Seq<u8>, i: nat, h: Seq<u8>)
    requires
        b.len() == BLOOM_BYTES,
        i < BLOOM_BITS,
    ensures
        spec_accrue(spec_set_bit(b, i), h) == spec_set_bit(spec_accrue(b, h), i),
{
    let i0 = spec_bloom_index(h, 0);
    let i1 = spec_bloom_index(h, 1);
    let i2 = spec_bloom_index(h, 2);
    lemma_set_bit_comm(b, i, i0);
    lemma_set_bit_comm(spec_set_bit(b, i0), i, i1);
    lemma_set_bit_comm(spec_set_bit(spec_set_bit(b, i0), i1), i, i2);
}

proof fn lemma_accrue_comm_h(b: Seq<u8>, h1: Seq<u8>, h2: Seq<u8>)
    requires
        b.len() == BLOOM_BYTES,
    ensures
        spec_accrue(spec_accrue(b, h1), h2) == spec_accrue(spec_accrue(b, h2), h1),
{
    let a0 = spec_bloom_index(h1, 0);
    let a1 = spec_bloom_index(h1, 1);
    let a2 = spec_bloom_index(h1, 2);
    lemma_set_bit_accrue_comm(b, a0, h2);
    lemma_set_bit_accrue_comm(spec_set_bit(b, a0), a1, h2);
    lemma_set_bit_accrue_comm(spec_set_bit(spec_set_bit(b, a0), a1), a2, h2);
}

proof fn lemma_accrue_idem_h(b: Seq<u8>, h: Seq<u8>)
    requires
        b.len() == BLOOM_BYTES,
    ensures
        spec_accrue(spec_accrue(b, h), h) == spec_accrue(b, h),
{
    let i0 = spec_bloom_index(h, 0);
    let i1 = spec_bloom_index(h, 1);
    let i2 = spec_bloom_index(h, 2);
    let s0 = spec_set_bit(b, i0);
    let s1 = spec_set_bit(s0, i1);
    let a = spec_accrue(b, h);
    lemma_set_bit_comm(s1, i2, i0);
    lemma_set_bit_comm(s0, i1, i0);
    lemma_set_bit_idem(b, i0);
    assert(spec_set_bit(a, i0) == a);
    lemma_set_bit_comm(s1, i2, i1);
    lemma_set_bit_idem(s0, i1);
    assert(spec_set_bit(a, i1) == a);
    lemma_set_bit_idem(s1, i2);
    assert(spec_set_bit(a, i2) == a);
}

/// Law: folding a byte string into the filter sets each of the three bit
/// positions derived from its digest.
pub proof fn lemma_accumulate_sets_derived_bits(b: Seq<u8>, s: Seq<u8>, j: int)
    requires
        b.len() == BLOOM_BYTES,
        0 <= j < 3,
    ensures
        spec_bit_set(spec_accrue(b, keccak_of(s)), spec_bloom_index(keccak_of(s), j)),
{
    let h = keccak_of(s);
    let i0 = spec_bloom_index(h, 0);
    let i1 = spec_bloom_index(h, 1);
    let i2 = spec_bloom_index(h, 2);
    let s0 = spec_set_bit(b, i0);
    let s1 = spec_set_bit(s0, i1);
    if j == 0 {
        lemma_set_bit_sets(b, i0);
        lemma_set_bit_preserves(s0, i1, i0);
        lemma_set_bit_preserves(s1, i2, i0);
    } else if j == 1 {
        lemma_set_bit_sets(s0, i1);
        lemma_set_bit_preserves(s1, i2, i1);
    } else {
        lemma_set_bit_sets(s1, i2);
    }
}

/// Law: folding a byte string into the filter never clears a bit that was
/// already set; the filter only accumulates.
pub proof fn lemma_accumulate_monotone(b: Seq<u8>, s: Seq<u8>, i: nat)
    requires
        b.len() == BLOOM_BYTES,
        i < BLOOM_BITS,
        spec_bit_set(b, i),
    ensures
        spec_bit_set(spec_accrue(b, keccak_of(s)), i),
{
    let h = keccak_of(s);
    let i0 = spec_bloom_index(h, 0);
    let i1 = spec_bloom_index(h, 1);
    let i2 = spec_bloom_index(h, 2);
    lemma_set_bit_preserves(b, i0, i);
    lemma_set_bit_preserves(spec_set_bit(b, i0), i1, i);
    lemma_set_bit_preserves(spec_set_bit(spec_set_bit(b, i0), i1), i2, i);
}

/// Law: folding the same byte string in a second time leaves the filter
/// unchanged.
pub proof fn lemma_accumulate_idempotent(b: Seq<u8>, s: Seq<u8>)
    requires
        b.len() == BLOOM_BYTES,
    ensures
        spec_accrue(spec_accrue(b, keccak_of(s)), keccak_of(s)) == spec_accrue(b, keccak_of(s)),
{
    lemma_accrue_idem_h(b, keccak_of(s));
}

/// Law: two byte strings may be folded into the filter in either order;
/// the resulting filters are identical.
pub proof fn lemma_accumulate_commutes(b: Seq<u8>, s1: Seq<u8>, s2: Seq<u8>)
    requires
        b.len() == BLOOM_BYTES,
    ensures
        spec_accrue(spec_accrue(b, keccak_of(s1)), keccak_of(s2)) == spec_accrue(
            spec_accrue(b, keccak_of(s2)),
            keccak_of(s1),
        ),
{
    lemma_accrue_comm_h(b, keccak_of(s1), keccak_of(s2));
}

} // verus!
