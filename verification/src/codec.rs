use vstd::arithmetic::div_mod::lemma_fundamental_div_mod;
use vstd::prelude::*;
use vstd::slice::slice_index_get;
use vstd::slice::slice_subrange;
use vstd::slice::slice_to_vec;

use crate::record::Log;
use crate::record::LogView;
use crate::record::ADDRESS_BYTES;
use crate::record::TOPIC_BYTES;

verus! {

/// Decoding failed because the input held fewer bytes than the record
/// declared lengths require.
#[derive(Clone, Copy, Debug, PartialEq, Eq, Structural)]
pub enum DecodeError {
    /// The decoder needed more bytes than remained in the declared slice.
    TruncatedInput,
}

/// The variable-width encoding of an unsigned count: seven value bits per
/// byte, least significant group first, with the high bit of every byte but
/// the last set as a continuation marker.
pub open spec fn spec_encode_varuint(n: nat) -> Seq<u8>
    decreases n,
{
    if n < 128 {
        seq![n as u8]
    } else {
        seq![(n % 128 + 128) as u8] + spec_encode_varuint(n / 128)
    }
}

/// Reads a variable-width count from the front of `s`: the value and the
/// number of bytes it occupies, or `None` if `s` ends inside the count.
pub open spec fn spec_decode_varuint(s: Seq<u8>) -> Option<(nat, nat)>
    decreases s.len(),
{
    if s.len() == 0 {
        None
    } else if s[0] < 128 {
        Some((s[0] as nat, 1))
    } else {
        match spec_decode_varuint(s.skip(1)) {
            Some(p) => Some((((s[0] - 128) + 128 * p.0) as nat, p.1 + 1)),
            None => None,
        }
    }
}

/// The concatenation of the raw bytes of each topic, in order.
pub open spec fn spec_topics_bytes(topics: Seq<Seq<u8>>) -> Seq<u8>
    decreases topics.len(),
{
    if topics.len() == 0 {
        Seq::empty()
    } else {
        topics[0] + spec_topics_bytes(topics.skip(1))
    }
}

/// The compact form of a record: the raw address, the topic count, the raw
/// topic bytes, and the raw payload, in that fixed order. The payload
/// carries no length of its own; its extent is whatever remains of the
/// record's declared total length.
pub open spec fn spec_encoding(v: LogView) -> Seq<u8> {
    v.address + spec_encode_varuint(v.topics.len()) + spec_topics_bytes(v.topics) + v.data
}

/// Decodes the compact form from a slice that holds exactly one record:
/// `None` when the slice is too short for the address, the topic count, or
/// the declared number of topics; otherwise the record, whose payload is
/// every byte after the topics.
pub open spec fn spec_decode(s: Seq<u8>) -> Option<LogView> {
    if s.len() < ADDRESS_BYTES {
        None
    } else {
        match spec_decode_varuint(s.skip(ADDRESS_BYTES as int)) {
            None => None,
            Some(ck) => {
                let rest = s.skip(ADDRESS_BYTES + ck.1);
                if rest.len() < TOPIC_BYTES * ck.0 {
                    None
                } else {
                    Some(
                        LogView {
                            address: s.subrange(0, ADDRESS_BYTES as int),
                            topics: Seq::new(
                                ck.0,
                                |i: int|
                                    rest.subrange(
                                        TOPIC_BYTES * i,
                                        TOPIC_BYTES * i + TOPIC_BYTES,
                                    ),
                            ),
                            data: rest.skip(TOPIC_BYTES * ck.0),
                        },
                    )
                }
            },
        }
    }
}

/// Appends the variable-width encoding of `n` to `buf`.
pub(crate) fn encode_varuint(buf: &mut Vec<u8>, n: usize)
    ensures
        final(buf)@ == old(buf)@ + spec_encode_varuint(n as nat),
{
    let mut m: usize = n;
    while m >= 128
        invariant
            old(buf)@ + spec_encode_varuint(n as nat) =~= buf@ + spec_encode_varuint(m as nat),
        decreases m,
    {
        let ghost pre = buf@;
        buf.push((m % 128 + 128) as u8);
        proof {
            assert(spec_encode_varuint(m as nat) =~= seq![
                (m as nat % 128 + 128) as u8,
            ] + spec_encode_varuint(m as nat / 128));
            assert(pre + spec_encode_varuint(m as nat) =~= buf@ + spec_encode_varuint(
                m as nat / 128,
            ));
        }
        m = m / 128;
    }
    buf.push(m as u8);
    proof {
        assert(spec_encode_varuint(m as nat) =~= seq![m as u8]);
        assert(buf@ =~= old(buf)@ + spec_encode_varuint(n as nat));
    }
}

/// Reads a variable-width count that starts at `buf[start]`: the value and
/// the number of bytes it occupies. `None` when the buffer ends inside the
/// count or the value does not fit in `usize`.
pub(crate) fn decode_varuint(buf: &[u8], start: usize) -> (r: Option<(usize, usize)>)
    requires
        start <= buf@.len(),
    ensures
        ({
            let m = spec_decode_varuint(buf@.skip(start as int));
            match r {
                Some(vk) => {
                    &&& m == Some((vk.0 as nat, vk.1 as nat))
                    &&& start + vk.1 <= buf@.len()
                },
                None => m is None || (m matches Some(p) && p.0 > usize::MAX),
            }
        }),
    decreases buf@.len() - start,
{
    let n = buf.len();
    if start == n {
        return None;
    }
    let ghost s = buf@.skip(start as int);
    let b = *slice_index_get(buf, start);
    assert(s[0] == b);
    if b < 128 {
        Some((b as usize, 1))
    } else {
        assert(s.skip(1) =~= buf@.skip(start as int + 1));
        match decode_varuint(buf, start + 1) {
            None => None,
            Some((v, k)) => {
                let low = (b - 128) as usize;
                if v > (usize::MAX - low) / 128 {
                    proof {
                        lemma_mul_div_exceeded((usize::MAX - low) as nat, v as nat, 128);
                    }
                    None
                } else {
                    proof {
                        lemma_mul_div_fits((usize::MAX - low) as nat, v as nat, 128);
                    }
                    Some((low + 128 * v, k + 1))
                }
            },
        }
    }
}

proof fn lemma_mul_div_exceeded(r: nat, c: nat, k: nat)
    requires
        k > 0,
        c > r / k,
    ensures
        k * c > r,
{
    lemma_fundamental_div_mod(r as int, k as int);
    assert(k * c > r) by (nonlinear_arith)
        requires
            k > 0,
            c > r / k,
            r == k * (r / k) + r % k,
            0 <= r % k < k,
    ;
}

proof fn lemma_mul_div_fits(r: nat, c: nat, k: nat)
    requires
        k > 0,
        c <= r / k,
    ensures
        k * c <= r,
{
    lemma_fundamental_div_mod(r as int, k as int);
    assert(k * c <= r) by (nonlinear_arith)
        requires
            k > 0,
            c <= r / k,
            r == k * (r / k) + r % k,
            0 <= r % k < k,
    ;
}

proof fn lemma_varuint_consumed(s: Seq<u8>)
    ensures
        spec_decode_varuint(s) matches Some(p) ==> 1 <= p.1 <= s.len(),
    decreases s.len(),
{
    if s.len() > 0 && s[0] >= 128 {
        lemma_varuint_consumed(s.skip(1));
    }
}

proof fn lemma_topics_bytes_snoc(topics: Seq<Seq<u8>>)
    requires
        topics.len() > 0,
    ensures
        spec_topics_bytes(topics) == spec_topics_bytes(topics.drop_last()) + topics.last(),
    decreases topics.len(),
{
    if topics.len() == 1 {
        assert(topics.skip(1) =~= Seq::<Seq<u8>>::empty());
        assert(topics.drop_last() =~= Seq::<Seq<u8>>::empty());
        assert(spec_topics_bytes(topics) =~= spec_topics_bytes(topics.drop_last())
            + topics.last());
    } else {
        let tail = topics.skip(1);
        lemma_topics_bytes_snoc(tail);
        assert(tail.drop_last() =~= topics.drop_last().skip(1));
        assert(tail.last() == topics.last());
        assert(topics.drop_last()[0] == topics[0]);
        assert(spec_topics_bytes(topics) =~= spec_topics_bytes(topics.drop_last())
            + topics.last());
    }
}

proof fn lemma_topics_bytes_len(topics: Seq<Seq<u8>>)
    requires
        forall|i: int| 0 <= i < topics.len() ==> (#[trigger] topics[i]).len() == TOPIC_BYTES,
    ensures
        spec_topics_bytes(topics).len() == TOPIC_BYTES * topics.len(),
    decreases topics.len(),
{
    if topics.len() > 0 {
        let tail = topics.skip(1);
        assert forall|i: int| 0 <= i < tail.len() implies (#[trigger] tail[i]).len()
            == TOPIC_BYTES by {
            assert(tail[i] == topics[i + 1]);
        }
        lemma_topics_bytes_len(tail);
    }
}

proof fn lemma_topics_bytes_index(topics: Seq<Seq<u8>>, i: int)
    requires
        forall|j: int| 0 <= j < topics.len() ==> (#[trigger] topics[j]).len() == TOPIC_BYTES,
        0 <= i < topics.len(),
    ensures
        spec_topics_bytes(topics).subrange(TOPIC_BYTES * i, TOPIC_BYTES * i + TOPIC_BYTES)
            == topics[i],
    decreases i,
{
    lemma_topics_bytes_len(topics);
    let tail = topics.skip(1);
    assert forall|j: int| 0 <= j < tail.len() implies (#[trigger] tail[j]).len()
        == TOPIC_BYTES by {
        assert(tail[j] == topics[j + 1]);
    }
    if i == 0 {
        assert(spec_topics_bytes(topics).subrange(0, TOPIC_BYTES as int) =~= topics[0]);
    } else {
        lemma_topics_bytes_index(tail, i - 1);
        lemma_topics_bytes_len(tail);
        assert(spec_topics_bytes(topics).subrange(
            TOPIC_BYTES * i,
            TOPIC_BYTES * i + TOPIC_BYTES,
        ) =~= spec_topics_bytes(tail).subrange(
            TOPIC_BYTES * (i - 1),
            TOPIC_BYTES * (i - 1) + TOPIC_BYTES,
        ));
        assert(tail[i - 1] == topics[i]);
    }
}

impl Log {
    /// Appends the compact form of this record to `buf` and returns the
    /// number of bytes written, which is the record's total compact length.
    /// Callers that pack records back to back hand that length to
    /// `from_compact` so the decoder knows where this record's bytes end.
    pub fn to_compact(&self, buf: &mut Vec<u8>) -> (n: usize)
        requires
            self.wf(),
        ensures
            final(buf)@ == old(buf)@ + spec_encoding(self@),
            n == spec_encoding(self@).len(),
    {
        let start = buf.len();
        buf.extend_from_slice(self.address.as_slice());
        encode_varuint(buf, self.topics.len());
        let ghost head = old(buf)@ + self@.address + spec_encode_varuint(self@.topics.len());
        assert(buf@ =~= head);
        assert(self@.topics.take(0) =~= Seq::<Seq<u8>>::empty());
        assert(head + spec_topics_bytes(self@.topics.take(0)) =~= head);
        let mut i: usize = 0;
        while i < self.topics.len()
            invariant
                i <= self.topics.len(),
                self@.topics.len() == self.topics.len(),
                buf@ == head + spec_topics_bytes(self@.topics.take(i as int)),
            decreases self.topics.len() - i,
        {
            let ghost pre = buf@;
            buf.extend_from_slice(self.topics[i].as_slice());
            proof {
                let t = self@.topics;
                lemma_topics_bytes_snoc(t.take(i + 1));
                assert(t.take(i + 1).drop_last() =~= t.take(i as int));
                assert(t.take(i + 1).last() == t[i as int]);
                assert(buf@ =~= pre + t[i as int]);
                assert(buf@ =~= head + spec_topics_bytes(t.take(i + 1)));
            }
            i += 1;
        }
        assert(self@.topics.take(self.topics.len() as int) =~= self@.topics);
        buf.extend_from_slice(self.data.as_slice());
        assert(buf@ =~= old(buf)@ + spec_encoding(self@));
        let end = buf.len();
        end - start
    }

    /// Decodes one record from the first `len` bytes of `buf`. Trailing
    /// bytes past `len` belong to whatever follows and are left untouched;
    /// on success the record and the number of bytes consumed (always
    /// exactly `len`) are returned. Fails with `TruncatedInput` exactly when
    /// `buf` holds fewer than `len` bytes or the declared slice is too short
    /// for the address, the topic count, or the counted topics.
    pub fn from_compact(buf: &[u8], len: usize) -> (r: Result<(Log, usize), DecodeError>)
        ensures
            r is Ok <==> (len <= buf@.len() && spec_decode(buf@.take(len as int)) is Some),
            r matches Ok(p) ==> {
                &&& spec_decode(buf@.take(len as int)) == Some(p.0@)
                &&& p.0.wf()
                &&& p.1 == len
            },
            r matches Err(e) ==> e == DecodeError::TruncatedInput,
    {
        if len > buf.len() {
            return Err(DecodeError::TruncatedInput);
        }
        let rec = slice_subrange(buf, 0, len);
        let ghost s = buf@.take(len as int);
        assert(rec@ =~= s);
        if len < ADDRESS_BYTES {
            return Err(DecodeError::TruncatedInput);
        }
        let address = slice_to_vec(slice_subrange(rec, 0, ADDRESS_BYTES));
        match decode_varuint(rec, ADDRESS_BYTES) {
            None => {
                proof {
                    let m = spec_decode_varuint(s.skip(ADDRESS_BYTES as int));
                    if m is Some {
                        lemma_varuint_consumed(s.skip(ADDRESS_BYTES as int));
                        let ck = m.unwrap();
                        let rest = s.skip(ADDRESS_BYTES + ck.1);
                        assert(rest.len() <= len);
                        assert(TOPIC_BYTES * ck.0 >= ck.0);
                        assert(rest.len() < TOPIC_BYTES * ck.0);
                    }
                }
                Err(DecodeError::TruncatedInput)
            },
            Some((c, k)) => {
                let pos = ADDRESS_BYTES + k;
                let ghost rest = s.skip(pos as int);
                assert(rest.len() == len - pos);
                if c > (len - pos) / TOPIC_BYTES {
                    proof {
                        lemma_mul_div_exceeded((len - pos) as nat, c as nat, TOPIC_BYTES as nat);
                    }
                    return Err(DecodeError::TruncatedInput);
                }
                proof {
                    lemma_mul_div_fits((len - pos) as nat, c as nat, TOPIC_BYTES as nat);
                }
                let mut topics: Vec<Vec<u8>> = Vec::new();
                let mut j: usize = 0;
                while j < c
                    invariant
                        j <= c,
                        pos + TOPIC_BYTES * c <= len,
                        len <= buf@.len(),
                        rec@ == buf@.take(len as int),
                        rec@.len() == len,
                        rest == rec@.skip(pos as int),
                        topics@.len() == j,
                        forall|t: int|
                            0 <= t < j ==> (#[trigger] topics@[t])@ == rest.subrange(
                                TOPIC_BYTES * t,
                                TOPIC_BYTES * t + TOPIC_BYTES,
                            ),
                    decreases c - j,
                {
                    let lo = pos + TOPIC_BYTES * j;
                    let topic = slice_to_vec(slice_subrange(rec, lo, lo + TOPIC_BYTES));
                    proof {
                        assert(topic@ =~= rest.subrange(
                            TOPIC_BYTES * j,
                            TOPIC_BYTES * j + TOPIC_BYTES,
                        ));
                    }
                    topics.push(topic);
                    j += 1;
                }
                let data = slice_to_vec(slice_subrange(rec, pos + TOPIC_BYTES * c, len));
                let log = Log { address, topics, data };
                proof {
                    assert(log@.address =~= s.subrange(0, ADDRESS_BYTES as int));
                    assert(log@.topics =~= Seq::new(
                        c as nat,
                        |i: int| rest.subrange(TOPIC_BYTES * i, TOPIC_BYTES * i + TOPIC_BYTES),
                    ));
                    assert(log@.data =~= rest.skip(TOPIC_BYTES * (c as int)));
                    assert forall|t: int| 0 <= t < log@.topics.len() implies (#[trigger] log@
                        .topics[t]).len() == TOPIC_BYTES by {
                        assert(log@.topics[t] == topics@[t]@);
                    }
                    assert(log@.wf());
                    assert(spec_decode(s) == Some(log@));
                }
                Ok((log, len))
            },
        }
    }
}

/// The variable-width count round-trips: decoding its encoding, with any
/// bytes following it, yields the value back and consumes exactly the
/// encoding.
pub proof fn lemma_varuint_round_trip(n: nat, tail: Seq<u8>)
    ensures
        spec_decode_varuint(spec_encode_varuint(n) + tail) == Some(
            (n, spec_encode_varuint(n).len()),
        ),
    decreases n,
{
    let enc = spec_encode_varuint(n);
    if n < 128 {
        assert((enc + tail)[0] == n as u8);
    } else {
        let b = (n % 128 + 128) as u8;
        assert(enc =~= seq![b] + spec_encode_varuint(n / 128));
        assert((enc + tail)[0] == b);
        assert(b >= 128);
        lemma_varuint_round_trip(n / 128, tail);
        assert((enc + tail).skip(1) =~= spec_encode_varuint(n / 128) + tail);
        lemma_fundamental_div_mod(n as int, 128);
        assert((b - 128) + 128 * (n / 128) == n);
    }
}

/// Law: a well-formed record round-trips. Decoding the compact encoding of
/// a record succeeds and yields every field back equal — empty topic lists
/// and empty payloads included — with the topics in the order they were
/// encoded.
pub proof fn lemma_round_trip(v: LogView)
    requires
        v.wf(),
    ensures
        spec_decode(spec_encoding(v)) == Some(v),
{
    let s = spec_encoding(v);
    let cnt = spec_encode_varuint(v.topics.len());
    let tb = spec_topics_bytes(v.topics);
    let c = v.topics.len();
    let k = cnt.len();
    lemma_topics_bytes_len(v.topics);
    assert(s.subrange(0, ADDRESS_BYTES as int) =~= v.address);
    assert(s.skip(ADDRESS_BYTES as int) =~= cnt + (tb + v.data));
    lemma_varuint_round_trip(c, tb + v.data);
    assert(spec_decode_varuint(s.skip(ADDRESS_BYTES as int)) == Some((c, k)));
    let rest = s.skip(ADDRESS_BYTES + k);
    assert(rest =~= tb + v.data);
    assert(rest.len() >= TOPIC_BYTES * c);
    let topics2 = Seq::new(
        c,
        |i: int| rest.subrange(TOPIC_BYTES * i, TOPIC_BYTES * i + TOPIC_BYTES),
    );
    assert forall|i: int| 0 <= i < c implies topics2[i] == v.topics[i] by {
        lemma_topics_bytes_index(v.topics, i);
        assert(rest.subrange(TOPIC_BYTES * i, TOPIC_BYTES * i + TOPIC_BYTES) =~= tb.subrange(
            TOPIC_BYTES * i,
            TOPIC_BYTES * i + TOPIC_BYTES,
        ));
    }
    assert(topics2 =~= v.topics);
    assert(rest.skip(TOPIC_BYTES * (c as int)) =~= v.data);
    assert(spec_decode(s) == Some(v));
}

/// Law: length accounting for packed records. The count of bytes the
/// encoder returns is exactly the count the decoder consumes: a record's
/// encoding, followed by any other bytes, decodes back to the record when
/// the slice is cut at the encoding's own length.
pub proof fn lemma_length_accounting(v: LogView, tail: Seq<u8>)
    requires
        v.wf(),
    ensures
        spec_decode((spec_encoding(v) + tail).take(spec_encoding(v).len() as int)) == Some(v),
{
    assert((spec_encoding(v) + tail).take(spec_encoding(v).len() as int) =~= spec_encoding(v));
    lemma_round_trip(v);
}

/// Law: a slice shorter than the smallest possible record — the address
/// plus a one-byte topic count — never decodes.
pub proof fn lemma_decode_too_short(s: Seq<u8>)
    requires
        s.len() < ADDRESS_BYTES + 1,
    ensures
        spec_decode(s) is None,
{
    if s.len() >= ADDRESS_BYTES {
        assert(s.skip(ADDRESS_BYTES as int).len() == 0);
    }
}

} // verus!
