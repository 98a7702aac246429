//! Fountain code over the codewords of a transmission.
//!
//! Each data codeword carries one packet of `t_bytes` bytes. There is one source
//! block, so that a packet is known by one number, its symbol number (ESI): the
//! packets below `K` are the payload itself, the others are repair packets. The
//! number is not sent with the packet; it follows from the place of the codeword.

use std::collections::HashMap;

use vstd::prelude::*;

use raptorq::{Decoder, Encoder, EncodingPacket, ObjectTransmissionInformation, PayloadId};

verus! {

/// Repair packets of a first burst, in percent of the source packets.
pub const REPAIR_PCT_DEFAULT: u32 = 30;

/// Smallest number of source packets; smaller payloads are filled up with zeros.
pub const MIN_K: usize = 4;

/// Largest number of source packets in one source block.
pub const MAX_K: usize = 56403;

/// Symbol numbers are below this.
pub const MAX_ESI: u32 = 0x100_0000;

/// Number of source packets.
pub open spec fn source_count(file_size: int, t_bytes: int) -> int {
    let t = if t_bytes < 1 {
        1
    } else {
        t_bytes
    };
    let raw = (file_size + t_bytes - 1) / t;
    if raw < MIN_K {
        MIN_K as int
    } else {
        raw
    }
}

/// Number of source packets of `t_bytes` for a payload, at least `MIN_K`.
pub fn k_from_payload(file_size: usize, t_bytes: usize) -> (k: usize)
    requires
        1 <= file_size + t_bytes <= usize::MAX,
    ensures
        k == source_count(file_size as int, t_bytes as int),
{
    let t: usize = if t_bytes < 1 {
        1
    } else {
        t_bytes
    };
    let raw: usize = (file_size + t_bytes - 1) / t;
    if raw < MIN_K {
        MIN_K
    } else {
        raw
    }
}

/// How a payload is cut: bytes after filling up, and bytes per packet.
#[derive(Clone, Copy, Debug, PartialEq, Eq, Structural)]
pub struct TransferInfo {
    pub transfer_length: u64,
    pub symbol_size: u16,
}

/// The payload and packet size fit one source block.
pub open spec fn fits_one_block(file_size: int, t_bytes: int) -> bool {
    &&& t_bytes >= 1
    &&& source_count(file_size, t_bytes) <= MAX_K
}

/// How a payload of `file_size` bytes is cut into packets of `t_bytes`.
pub fn build_oti(file_size: u32, t_bytes: u16) -> (info: TransferInfo)
    requires
        fits_one_block(file_size as int, t_bytes as int),
        file_size + t_bytes <= usize::MAX,
    ensures
        info.transfer_length == source_count(file_size as int, t_bytes as int) * t_bytes,
        info.transfer_length >= file_size,
        info.transfer_length % (t_bytes as u64) == 0,
        info.symbol_size == t_bytes,
{
    let k: usize = k_from_payload(file_size as usize, t_bytes as usize);
    proof {
        lemma_product(k as int, t_bytes as int);
        lemma_room(file_size as int, t_bytes as int);
        vstd::arithmetic::div_mod::lemma_mod_multiples_basic(k as int, t_bytes as int);
    }
    TransferInfo { transfer_length: k as u64 * t_bytes as u64, symbol_size: t_bytes }
}

proof fn lemma_product(k: int, t: int)
    requires
        0 <= k <= MAX_K,
        0 <= t <= u16::MAX,
    ensures
        0 <= k * t <= 0xDC53_23AD,
{
    assert(0 <= k * t <= 56403 * 65535) by (nonlinear_arith)
        requires
            0 <= k <= 56403,
            0 <= t <= 65535,
    ;
}

// ---------------------------------------------------------------------------
// The code
// ---------------------------------------------------------------------------

/// Packet `esi` of a source block that is cut into packets of `t` bytes.
pub uninterp spec fn rq_packet(source: Seq<u8>, t: nat, esi: nat) -> Seq<u8>;

/// Packet `esi` of a block: below the number of source packets a piece of the block
/// itself, else a repair packet.
pub open spec fn packet_of(source: Seq<u8>, t: nat, esi: nat) -> Seq<u8> {
    if esi < source.len() / t {
        source.subrange(esi * t as int, esi * t as int + t)
    } else {
        rq_packet(source, t, esi)
    }
}

/// A block of whole packets that the code can take.
pub open spec fn is_block(source: Seq<u8>, t: int) -> bool {
    &&& t >= 1
    &&& source.len() % (t as nat) == 0
    &&& 1 <= source.len() / (t as nat) <= MAX_K
}

/// `ObjectTransmissionInformation::new` with one source block, `Encoder::new` and
/// `Encoder::get_encoded_packets`: the source packets, which are the block itself in
/// pieces of `t` bytes, and then `n_repair` repair packets of the same size. A packet
/// depends on the block, on `t` and on its number alone.
#[verifier::external_body]
fn fountain_packets(source: &[u8], t: u16, n_repair: u32) -> (packets: Vec<Vec<u8>>)
    requires
        is_block(source@, t as int),
        source@.len() / (t as nat) + n_repair <= MAX_ESI,
    ensures
        packets@.len() == source@.len() / (t as nat) + n_repair,
        forall|i: int|
            0 <= i < packets@.len() ==> (#[trigger] packets@[i])@ == rq_packet(
                source@,
                t as nat,
                i as nat,
            ),
        forall|i: int| 0 <= i < packets@.len() ==> (#[trigger] packets@[i])@.len() == t,
        forall|i: int|
            0 <= i < source@.len() / (t as nat) ==> (#[trigger] packets@[i])@ == source@.subrange(
                i * t,
                i * t + t,
            ),
{
    let info = ObjectTransmissionInformation::new(source.len() as u64, t, 1, 1, 1);
    let packets = Encoder::new(source, info).get_encoded_packets(n_repair);
    packets.into_iter().map(|p| p.data().to_vec()).collect()
}

/// The decoder of the fountain code: a collection of packets.
#[verifier::external_type_specification]
#[verifier::external_body]
pub struct ExDecoder(Decoder);

/// The packets that a decoder holds, by number.
pub uninterp spec fn received(d: Decoder) -> Map<u32, Seq<u8>>;

/// Source packets and bytes per packet that a decoder was made for.
pub uninterp spec fn made_for(d: Decoder) -> (nat, nat);

/// No packets.
pub open spec fn no_packets() -> Map<u32, Seq<u8>> {
    Map::empty()
}

/// Some packets are those of a block.
pub open spec fn packets_of(packets: Map<u32, Seq<u8>>, source: Seq<u8>, t: nat) -> bool {
    forall|esi: u32| #[trigger]
        packets.dom().contains(esi) ==> packets[esi] == packet_of(source, t, esi as nat)
}

/// The packets with some numbers are enough for a block of `k` source packets.
pub uninterp spec fn rq_determined(numbers: Set<u32>, k: nat) -> bool;

/// No other block of the size of `block` has these packets.
pub open spec fn is_only_block(block: Seq<u8>, packets: Map<u32, Seq<u8>>, t: nat) -> bool {
    forall|source: Seq<u8>|
        source.len() == block.len() && #[trigger] packets_of(packets, source, t) ==> block
            == source
}

/// All packets below `k` are there.
pub open spec fn has_source(packets: Map<u32, Seq<u8>>, k: nat) -> bool {
    forall|esi: u32| esi < k ==> #[trigger] packets.dom().contains(esi)
}

/// The source packets that are there stand in a block as they are.
pub open spec fn holds_source(block: Seq<u8>, packets: Map<u32, Seq<u8>>, k: nat, t: nat) -> bool {
    forall|esi: u32|
        esi < k && #[trigger] packets.dom().contains(esi) ==> block.subrange(
            esi * t,
            esi * t + t,
        ) == packets[esi]
}

/// `ObjectTransmissionInformation::new` with one source block and `Decoder::new`: a
/// decoder without packets.
#[verifier::external_body]
fn empty_decoder(transfer_length: u64, t: u16) -> (d: Decoder)
    requires
        t >= 1,
        transfer_length % (t as u64) == 0,
        1 <= transfer_length / (t as u64) <= MAX_K,
    ensures
        received(d) == no_packets(),
        made_for(d) == ((transfer_length / (t as u64)) as nat, t as nat),
{
    Decoder::new(ObjectTransmissionInformation::new(transfer_length, t, 1, 1, 1))
}

/// `Decoder::decode` of one packet with a new number: either the decoder holds the
/// packet, or the block comes out.
///
/// Whether the block comes out depends on the numbers of the packets and on how many
/// source packets there are alone, not on the contents of the packets nor on their order:
/// the decoder solves a system of equations whose rows go by these numbers. It does not
/// come out of fewer packets than there are source packets, and it does come out once all
/// source packets are there. The source packets that the decoder holds are handed out as
/// they are. Where all packets are those of one block, that block comes out.
#[verifier::external_body]
fn add_packet(d: Decoder, esi: u32, bytes: Vec<u8>) -> (out: Result<Vec<u8>, Decoder>)
    requires
        esi < MAX_ESI,
        bytes@.len() == made_for(d).1,
        !received(d).dom().contains(esi),
    ensures
        out matches Err(next) ==> received(next) == received(d).insert(esi, bytes@),
        out matches Err(next) ==> made_for(next) == made_for(d),
        out is Ok <==> rq_determined(received(d).insert(esi, bytes@).dom(), made_for(d).0),
        out is Ok ==> received(d).insert(esi, bytes@).dom().len() >= made_for(d).0,
        has_source(received(d).insert(esi, bytes@), made_for(d).0) ==> out is Ok,
        out matches Ok(block) ==> block@.len() == made_for(d).0 * made_for(d).1,
        out matches Ok(block) ==> holds_source(
            block@,
            received(d).insert(esi, bytes@),
            made_for(d).0,
            made_for(d).1,
        ),
        out matches Ok(block) ==> is_only_block(
            block@,
            received(d).insert(esi, bytes@),
            made_for(d).1,
        ),
{
    let mut decoder = d;
    match decoder.decode(EncodingPacket::new(PayloadId::new(0, esi), bytes)) {
        Some(block) => Ok(block),
        None => Err(decoder),
    }
}

// ---------------------------------------------------------------------------
// Sending
// ---------------------------------------------------------------------------

/// A payload filled up with zeros to whole packets.
pub open spec fn filled(data: Seq<u8>, t: int) -> Seq<u8> {
    Seq::new(
        (source_count(data.len() as int, t) * t) as nat,
        |i: int|
            if i < data.len() {
                data[i]
            } else {
                0u8
            },
    )
}

proof fn lemma_filled(data: Seq<u8>, t: int)
    requires
        fits_one_block(data.len() as int, t),
        t <= u16::MAX,
    ensures
        is_block(filled(data, t), t),
        filled(data, t).len() == source_count(data.len() as int, t) * t,
        filled(data, t).len() / (t as nat) == source_count(data.len() as int, t),
        data.len() <= filled(data, t).len() <= 0xDC53_23AD,
{
    let k = source_count(data.len() as int, t);
    let raw = (data.len() + t - 1) / t;
    lemma_product(k, t);
    vstd::arithmetic::div_mod::lemma_mod_multiples_basic(k, t);
    vstd::arithmetic::div_mod::lemma_div_multiples_vanish(k, t);
    vstd::arithmetic::div_mod::lemma_fundamental_div_mod(data.len() + t - 1, t);
    assert(t * k == k * t) by (nonlinear_arith);
    assert(raw * t <= k * t && raw * t == t * raw) by (nonlinear_arith)
        requires
            raw <= k,
            t >= 1,
    ;
}

/// A payload filled up with zeros to whole packets.
fn fill(data: &[u8], k: usize, t: u16) -> (block: Vec<u8>)
    requires
        fits_one_block(data@.len() as int, t as int),
        k == source_count(data@.len() as int, t as int),
    ensures
        block@ == filled(data@, t as int),
{
    proof {
        lemma_filled(data@, t as int);
    }
    let n: usize = k * t as usize;
    let mut block: Vec<u8> = Vec::new();
    let mut i: usize = 0;
    while i < n
        invariant
            i <= n,
            n == filled(data@, t as int).len(),
            block@ == filled(data@, t as int).take(i as int),
        decreases n - i,
    {
        if i < data.len() {
            block.push(data[i]);
        } else {
            block.push(0);
        }
        assert(filled(data@, t as int).take(i + 1) =~= filled(data@, t as int).take(i as int).push(
            filled(data@, t as int)[i as int],
        ));
        i = i + 1;
    }
    assert(filled(data@, t as int).take(i as int) =~= filled(data@, t as int));
    block
}

/// The packets of a payload with numbers from `start` on.
pub open spec fn is_burst(packets: Seq<Vec<u8>>, data: Seq<u8>, t: nat, start: int) -> bool {
    forall|i: int|
        0 <= i < packets.len() ==> {
            &&& (#[trigger] packets[i])@ == packet_of(filled(data, t as int), t, (start + i) as nat)
            &&& packets[i]@.len() == t
        }
}

/// The packets of a payload with numbers `esi_start` to `esi_start + count - 1`.
pub fn encode_packets_range(data: &[u8], t_bytes: u16, esi_start: u32, count: u32) -> (out: Vec<
    Vec<u8>,
>)
    requires
        fits_one_block(data@.len() as int, t_bytes as int),
        data@.len() + t_bytes <= usize::MAX,
        esi_start + count <= MAX_ESI,
    ensures
        out@.len() == count,
        is_burst(out@, data@, t_bytes as nat, esi_start as int),
        forall|i: int|
            0 <= i < count && esi_start + i < source_count(data@.len() as int, t_bytes as int) ==> (
            #[trigger] out@[i])@ == filled(data@, t_bytes as int).subrange(
                (esi_start + i) * t_bytes,
                (esi_start + i) * t_bytes + t_bytes,
            ),
{
    let mut out: Vec<Vec<u8>> = Vec::new();
    if count == 0 {
        return out;
    }
    let k: usize = k_from_payload(data.len(), t_bytes as usize);
    let block = fill(data, k, t_bytes);
    proof {
        lemma_filled(data@, t_bytes as int);
    }
    let esi_end: u32 = esi_start + count;
    let n_repair: u32 = if esi_end < k as u32 {
        0
    } else {
        esi_end - k as u32
    };
    let packets = fountain_packets(block.as_slice(), t_bytes, n_repair);
    let mut i: u32 = 0;
    while i < count
        invariant
            i <= count,
            esi_start + count == esi_end <= packets@.len(),
            block@ == filled(data@, t_bytes as int),
            forall|j: int|
                0 <= j < packets@.len() ==> (#[trigger] packets@[j])@ == packet_of(
                    block@,
                    t_bytes as nat,
                    j as nat,
                ),
            forall|j: int| 0 <= j < packets@.len() ==> (#[trigger] packets@[j])@.len() == t_bytes,
            out@.len() == i,
            forall|j: int|
                0 <= j < i ==> (#[trigger] out@[j])@ == packets@[esi_start + j]@,
        decreases count - i,
    {
        let packet = packets[(esi_start + i) as usize].clone();
        assert(packet@ =~= packets@[esi_start + i]@);
        out.push(packet);
        i = i + 1;
    }
    proof {
        assert forall|i: int|
            0 <= i < count && esi_start + i < source_count(
                data@.len() as int,
                t_bytes as int,
            ) implies (#[trigger] out@[i])@ == filled(data@, t_bytes as int).subrange(
            (esi_start + i) * t_bytes,
            (esi_start + i) * t_bytes + t_bytes,
        ) by {
            assert(out@[i]@ == packets@[esi_start + i]@);
        }
    }
    out
}

/// The source packets of a payload and `repair_pct` percent of repair packets.
pub fn encode_packets(data: &[u8], t_bytes: u16, repair_pct: u32) -> (out: Vec<Vec<u8>>)
    requires
        fits_one_block(data@.len() as int, t_bytes as int),
        data@.len() + t_bytes <= usize::MAX,
        ({
            let k = source_count(data@.len() as int, t_bytes as int);
            &&& k * repair_pct <= u32::MAX
            &&& k + k * repair_pct / 100 <= MAX_ESI
        }),
    ensures
        ({
            let k = source_count(data@.len() as int, t_bytes as int);
            out@.len() == k + k * repair_pct / 100
        }),
        ({
            let k = source_count(data@.len() as int, t_bytes as int);
            100 * (out@.len() - k) <= k * repair_pct < 100 * (out@.len() - k + 1)
        }),
        is_burst(out@, data@, t_bytes as nat, 0),
        forall|i: int|
            0 <= i < source_count(data@.len() as int, t_bytes as int) ==> (#[trigger] out@[i])@
                == filled(data@, t_bytes as int).subrange(i * t_bytes, i * t_bytes + t_bytes),
{
    let k: u32 = k_from_payload(data.len(), t_bytes as usize) as u32;
    let n_repair: u32 = (k * repair_pct) / 100;
    encode_packets_range(data, t_bytes, 0, k + n_repair)
}

/// Repair packets of a first burst.
pub fn n_repair_default(k: u32) -> (n: u32)
    requires
        k * REPAIR_PCT_DEFAULT <= u32::MAX,
    ensures
        n == repair_count(k as int),
        10 * n <= 3 * k < 10 * (n + 1),
{
    (k * REPAIR_PCT_DEFAULT) / 100
}

// ---------------------------------------------------------------------------
// Receiving
// ---------------------------------------------------------------------------

/// Contents of packets.
pub open spec fn packet_bytes(packets: Map<u32, Vec<u8>>) -> Map<u32, Seq<u8>> {
    packets.map_values(|v: Vec<u8>| v@)
}

/// Every packet has a number in range and `t` bytes.
pub open spec fn well_sized(packets: Map<u32, Seq<u8>>, t: int) -> bool {
    forall|esi: u32| #[trigger]
        packets.dom().contains(esi) ==> esi < MAX_ESI && packets[esi].len() == t
}

/// There are no repair packets.
pub open spec fn only_source(packets: Map<u32, Seq<u8>>, k: nat) -> bool {
    forall|esi: u32| #[trigger] packets.dom().contains(esi) ==> esi < k
}

/// The first `file_size` bytes of the source packets one behind the other.
pub open spec fn joined_source(packets: Map<u32, Seq<u8>>, file_size: int, t: int) -> Seq<u8> {
    Seq::new(file_size as nat, |i: int| packets[(i / t) as u32][i % t])
}

/// What decoding packets gives: nothing from fewer packets than there are source
/// packets, a payload if all source packets are there or if the packets are enough
/// otherwise, and no other payload than the one that the packets belong to. Without repair
/// packets it is the source packets one behind the other. A payload only comes out if some
/// of the packets are enough.
pub open spec fn is_decoding(
    out: Option<Vec<u8>>,
    packets: Map<u32, Seq<u8>>,
    file_size: int,
    t: int,
) -> bool {
    let k = source_count(file_size, t);
    &&& packets.dom().len() < k ==> out is None
    &&& has_source(packets, k as nat) ==> out is Some
    &&& packets.dom().len() > 0 && rq_determined(packets.dom(), k as nat) ==> out is Some
    &&& out is Some ==> exists|some: Set<u32>| #[trigger]
        some.subset_of(packets.dom()) && rq_determined(some, k as nat)
    &&& out matches Some(payload) ==> payload@.len() == file_size
    &&& out matches Some(payload) ==> forall|source: Seq<u8>|
        source.len() == k * t && #[trigger] packets_of(packets, source, t as nat) ==> payload@
            == source.take(file_size)
    &&& only_source(packets, k as nat) ==> (out matches Some(payload) ==> payload@
        == joined_source(packets, file_size, t))
}

/// There are `k` numbers below `k`.
proof fn lemma_numbers_below(k: nat)
    requires
        k <= MAX_K,
    ensures
        Set::new(|esi: u32| esi < k).finite(),
        Set::new(|esi: u32| esi < k).len() == k,
    decreases k,
{
    let all = Set::new(|esi: u32| esi < k);
    if k == 0 {
        assert(all =~= Set::empty());
    } else {
        lemma_numbers_below((k - 1) as nat);
        let fewer = Set::new(|esi: u32| esi < k - 1);
        assert(fewer =~= Set::new(|esi: u32| esi < (k - 1) as nat));
        assert(all =~= fewer.insert((k - 1) as u32));
    }
}

/// As many source packets as there can be are all of them.
proof fn lemma_all_source(packets: Map<u32, Seq<u8>>, k: nat)
    requires
        k <= MAX_K,
        only_source(packets, k),
        packets.dom().finite(),
        packets.dom().len() >= k,
    ensures
        has_source(packets, k),
{
    let all = Set::new(|esi: u32| esi < k);
    lemma_numbers_below(k);
    assert forall|esi: u32| esi < k implies #[trigger] packets.dom().contains(esi) by {
        if !packets.dom().contains(esi) {
            let rest = all.remove(esi);
            assert(packets.dom().subset_of(rest));
            vstd::set_lib::lemma_len_subset(packets.dom(), rest);
        }
    }
}

/// The packet that a byte stands in.
proof fn lemma_block_of(i: int, k: int, t: int)
    requires
        0 <= i < k * t,
        t >= 1,
    ensures
        0 <= i / t < k,
{
    vstd::arithmetic::div_mod::lemma_fundamental_div_mod(i, t);
    assert(0 <= i / t < k) by (nonlinear_arith)
        requires
            i == t * (i / t) + i % t,
            0 <= i % t < t,
            0 <= i < k * t,
            t >= 1,
    ;
}

/// A block that holds all source packets is made of them.
proof fn lemma_joined(block: Seq<u8>, packets: Map<u32, Seq<u8>>, k: nat, t: nat, file_size: int)
    requires
        1 <= t,
        k <= MAX_K,
        block.len() == k * t,
        0 <= file_size <= k * t,
        has_source(packets, k),
        holds_source(block, packets, k, t),
    ensures
        block.take(file_size) == joined_source(packets, file_size, t as int),
{
    assert forall|i: int| 0 <= i < file_size implies block[i] == #[trigger] joined_source(
        packets,
        file_size,
        t as int,
    )[i] by {
        let b = i / t as int;
        vstd::arithmetic::div_mod::lemma_fundamental_div_mod(i, t as int);
        assert(0 <= b < k && b * t + i % (t as int) == i && b * t + t <= k * t) by (nonlinear_arith)
            requires
                i == t * b + i % (t as int),
                0 <= i % (t as int) < t,
                0 <= i < k * t,
                t >= 1,
        ;
        assert(packets.dom().contains(b as u32));
        assert(block.subrange(b * t, b * t + t)[i % (t as int)] == block[i]);
    }
    assert(block.take(file_size) =~= joined_source(packets, file_size, t as int));
}

/// The packets of a map as a list.
pub(crate) fn entries(packets: &HashMap<u32, Vec<u8>>) -> (list: Vec<(u32, Vec<u8>)>)
    ensures
        list@.len() == packets@.dom().len(),
        packets@.dom().finite(),
        forall|i: int|
            0 <= i < list@.len() ==> packet_bytes(packets@).dom().contains((#[trigger] list@[i]).0)
                && packet_bytes(packets@)[list@[i].0] == list@[i].1@,
        forall|i: int, j: int|
            0 <= i < list@.len() && 0 <= j < list@.len() && i != j ==> list@[i].0 != list@[j].0,
        forall|esi: u32| #[trigger]
            packets@.dom().contains(esi) ==> exists|i: int|
                0 <= i < list@.len() && (#[trigger] list@[i]).0 == esi,
{
    broadcast use vstd::std_specs::hash::group_hash_axioms;

    let mut list: Vec<(u32, Vec<u8>)> = Vec::new();
    let walk = packets.iter();
    let ghost all = vstd::std_specs::iter::IteratorSpec::remaining(&walk);
    for (esi, bytes) in it: walk
        invariant
            it.seq() == all,
            list@.len() == it.index(),
            forall|i: int|
                0 <= i < list@.len() ==> (#[trigger] list@[i]).0 == *it.seq()[i].0 && list@[i].1@
                    == it.seq()[i].1@,
    {
        let copy = bytes.clone();
        assert(copy@ =~= bytes@);
        list.push((*esi, copy));
    }
    proof {
        assert forall|i: int, j: int|
            0 <= i < list@.len() && 0 <= j < list@.len() && i != j implies list@[i].0
            != list@[j].0 by {
            if list@[i].0 == list@[j].0 {
                assert(packets@.contains_key(*all[i].0) && packets@.contains_key(*all[j].0));
                assert(packets@[*all[i].0] == *all[i].1 && packets@[*all[j].0] == *all[j].1);
                assert(all[i] == all[j]);
            }
        }
        assert forall|esi: u32| #[trigger] packets@.dom().contains(esi) implies exists|i: int|
            0 <= i < list@.len() && (#[trigger] list@[i]).0 == esi by {
            assert(packets@.contains_key(esi));
            assert(all.contains((&esi, &packets@[esi])));
            let i = choose|i: int| 0 <= i < all.len() && all[i] == (&esi, &packets@[esi]);
            assert(list@[i].0 == esi);
        }
    }
    list
}

/// Attempt to decode a payload of `file_size` bytes from the packets received so far.
pub fn try_decode(packets: &HashMap<u32, Vec<u8>>, file_size: u32, t_bytes: u16) -> (out: Option<
    Vec<u8>,
>)
    requires
        fits_one_block(file_size as int, t_bytes as int),
        file_size + t_bytes <= usize::MAX,
        well_sized(packet_bytes(packets@), t_bytes as int),
    ensures
        is_decoding(out, packet_bytes(packets@), file_size as int, t_bytes as int),
{
    let list = entries(packets);
    let info = build_oti(file_size, t_bytes);
    let ghost map = packet_bytes(packets@);
    let ghost k = source_count(file_size as int, t_bytes as int) as nat;
    proof {
        assert(map.dom() =~= packets@.dom());
        vstd::arithmetic::div_mod::lemma_mod_multiples_basic(k as int, t_bytes as int);
        vstd::arithmetic::div_mod::lemma_div_multiples_vanish(k as int, t_bytes as int);
        assert(k * t_bytes == t_bytes * k) by (nonlinear_arith);
        lemma_room(file_size as int, t_bytes as int);
        assert(!no_packets().dom().contains(0u32));
    }
    let mut decoder = empty_decoder(info.transfer_length, info.symbol_size);
    let mut i: usize = 0;
    while i < list.len()
        invariant
            i <= list@.len(),
            map == packet_bytes(packets@),
            map.dom() == packets@.dom(),
            map.dom().finite(),
            k == source_count(file_size as int, t_bytes as int),
            1 <= t_bytes,
            k <= MAX_K,
            made_for(decoder) == (k, t_bytes as nat),
            file_size <= k * t_bytes,
            well_sized(map, t_bytes as int),
            forall|j: int|
                0 <= j < list@.len() ==> map.dom().contains((#[trigger] list@[j]).0)
                    && map[list@[j].0] == list@[j].1@,
            forall|a: int, b: int|
                0 <= a < list@.len() && 0 <= b < list@.len() && a != b ==> list@[a].0
                    != list@[b].0,
            received(decoder).submap_of(map),
            forall|j: int|
                0 <= j < i ==> received(decoder).dom().contains((#[trigger] list@[j]).0),
            forall|esi: u32| #[trigger]
                received(decoder).dom().contains(esi) ==> exists|j: int|
                    0 <= j < i && (#[trigger] list@[j]).0 == esi,
            !has_source(received(decoder), k),
            i > 0 ==> !rq_determined(received(decoder).dom(), k),
        decreases list@.len() - i,
    {
        let esi: u32 = list[i].0;
        let bytes = list[i].1.clone();
        let ghost now = received(decoder).insert(esi, bytes@);
        proof {
            assert(bytes@ =~= list@[i as int].1@);
            assert(map.dom().contains(list@[i as int].0));
            assert(now.submap_of(map));
            assert(now.dom().subset_of(map.dom()));
            vstd::set_lib::lemma_len_subset(now.dom(), map.dom());
        }
        match add_packet(decoder, esi, bytes) {
            Ok(block) => {
                let mut payload = block;
                proof {
                    assert(now.dom().subset_of(map.dom()) && rq_determined(now.dom(), k));
                    if only_source(map, k) {
                        assert(only_source(now, k)) by {
                            assert forall|e: u32| #[trigger] now.dom().contains(e) implies e
                                < k by {
                                assert(map.dom().contains(e));
                            }
                        }
                        lemma_all_source(now, k);
                        lemma_joined(payload@, now, k, t_bytes as nat, file_size as int);
                        assert(joined_source(now, file_size as int, t_bytes as int)
                            =~= joined_source(map, file_size as int, t_bytes as int)) by {
                            assert forall|i: int| 0 <= i < file_size implies #[trigger]
                                joined_source(now, file_size as int, t_bytes as int)[i]
                                == joined_source(map, file_size as int, t_bytes as int)[i] by {
                                lemma_block_of(i, k as int, t_bytes as int);
                                assert(now.dom().contains((i / t_bytes as int) as u32));
                            }
                        }
                    }
                    assert forall|source: Seq<u8>|
                        source.len() == k * t_bytes && #[trigger] packets_of(
                            map,
                            source,
                            t_bytes as nat,
                        ) implies payload@.take(file_size as int) == source.take(
                        file_size as int,
                    ) by {
                        assert(packets_of(now, source, t_bytes as nat)) by {
                            assert forall|e: u32| #[trigger] now.dom().contains(e) implies now[e]
                                == packet_of(source, t_bytes as nat, e as nat) by {
                                assert(map.dom().contains(e));
                            }
                        }
                    }
                }
                payload.truncate(file_size as usize);
                return Some(payload);
            },
            Err(next) => {
                decoder = next;
            },
        }
        i = i + 1;
    }
    proof {
        assert forall|esi: u32| #[trigger] map.dom().contains(esi) implies received(
            decoder,
        ).dom().contains(esi) by {
            let j = choose|j: int| 0 <= j < list@.len() && (#[trigger] list@[j]).0 == esi;
        }
        assert(received(decoder).dom() =~= map.dom());
        if has_source(map, k) {
            assert forall|esi: u32| esi < k implies #[trigger] received(decoder).dom().contains(
                esi,
            ) by {
                assert(map.dom().contains(esi));
            }
        }
    }
    None
}

/// A payload is not larger than its packets.
proof fn lemma_room(file_size: int, t: int)
    requires
        file_size >= 0,
        t >= 1,
    ensures
        file_size <= source_count(file_size, t) * t,
{
    let raw = (file_size + t - 1) / t;
    vstd::arithmetic::div_mod::lemma_fundamental_div_mod(file_size + t - 1, t);
    assert(raw * t <= source_count(file_size, t) * t && raw * t == t * raw) by (nonlinear_arith)
        requires
            raw <= source_count(file_size, t),
            t >= 1,
    ;
}

/// A payload comes back from its own packets or not at all: decoding any packets of
/// a payload gives nothing or the payload. All source packets are enough, and so are other
/// packets that determine the block, whichever were lost.
pub proof fn law_packets_give_their_payload(
    data: Seq<u8>,
    t: int,
    packets: Map<u32, Seq<u8>>,
    out: Option<Vec<u8>>,
)
    requires
        fits_one_block(data.len() as int, t),
        t <= u16::MAX,
        packets_of(packets, filled(data, t), t as nat),
        is_decoding(out, packets, data.len() as int, t),
    ensures
        out matches Some(payload) ==> payload@ == data,
        has_source(packets, source_count(data.len() as int, t) as nat) ==> out is Some,
        packets.dom().len() > 0 && rq_determined(
            packets.dom(),
            source_count(data.len() as int, t) as nat,
        ) ==> out is Some,
        packets.dom().len() < source_count(data.len() as int, t) ==> out is None,
{
    lemma_filled(data, t);
    assert(filled(data, t).take(data.len() as int) =~= data);
}

/// A payload is cut into as few packets as hold it, and into at least four. Filling up
/// adds zeros to the last packets and nothing else.
pub proof fn law_payload_is_cut_into_few_packets(data: Seq<u8>, t: int, i: int)
    requires
        t >= 1,
    ensures
        ({
            let k = source_count(data.len() as int, t);
            let block = filled(data, t);
            &&& k >= 4
            &&& k * t >= data.len()
            &&& k > 4 ==> (k - 1) * t < data.len()
            &&& block.len() == k * t
            &&& 0 <= i < data.len() ==> block[i] == data[i]
            &&& data.len() <= i < block.len() ==> block[i] == 0
        }),
{
    let k = source_count(data.len() as int, t);
    let raw = (data.len() + t - 1) / t;
    vstd::arithmetic::div_mod::lemma_fundamental_div_mod(data.len() + t - 1, t);
    assert(raw * t == t * raw && (raw - 1) * t == t * raw - t) by (nonlinear_arith);
    assert(k * t >= raw * t) by (nonlinear_arith)
        requires
            k >= raw,
            t >= 1,
    ;
}

/// Number of repair packets of a first burst.
pub open spec fn repair_count(k: int) -> int {
    k * REPAIR_PCT_DEFAULT / 100
}

/// A first burst has three repair packets for ten source packets, rounded down.
pub proof fn law_three_repair_packets_for_ten(k: int)
    requires
        k >= 0,
    ensures
        10 * repair_count(k) <= 3 * k < 10 * (repair_count(k) + 1),
{
}

/// Bursts of one payload agree: the packet with a number is the same in every burst that
/// holds it.
pub proof fn law_bursts_agree(
    a: Seq<Vec<u8>>,
    b: Seq<Vec<u8>>,
    data: Seq<u8>,
    t: nat,
    first: int,
    second: int,
    i: int,
    j: int,
)
    requires
        is_burst(a, data, t, first),
        is_burst(b, data, t, second),
        0 <= i < a.len(),
        0 <= j < b.len(),
        first + i == second + j,
    ensures
        a[i]@ == b[j]@,
{
}

/// The first packets are the payload in pieces: packet `esi` holds the `t` bytes of the
/// payload from byte `esi * t` on.
pub proof fn law_first_packets_are_the_payload(
    packets: Seq<Vec<u8>>,
    data: Seq<u8>,
    t: nat,
    start: int,
    i: int,
    j: int,
)
    requires
        t >= 1,
        0 <= start,
        is_burst(packets, data, t, start),
        0 <= i < packets.len(),
        0 <= j < t,
        (start + i) * t + j < data.len(),
    ensures
        packets[i]@.len() == t,
        packets[i]@[j] == data[(start + i) * t + j],
{
    let k = source_count(data.len() as int, t as int);
    let esi = start + i;
    law_payload_is_cut_into_few_packets(data, t as int, 0);
    assert(0 <= esi * t && esi < k && esi * t + t <= k * t) by (nonlinear_arith)
        requires
            esi * t + j < data.len(),
            k * t >= data.len(),
            0 <= esi,
            0 <= j < t,
    ;
    vstd::arithmetic::div_mod::lemma_div_multiples_vanish(k, t as int);
    assert(t * k == k * t) by (nonlinear_arith);
    assert(packets[i]@ == packet_of(filled(data, t as int), t, esi as nat));
}

} // verus!
