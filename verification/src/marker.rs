//! Resync marker between segments: 32 known QPSK symbols and 32 QPSK symbols of
//! control data.
//!
//! Control data (8 bytes, most significant bit first, two bits per symbol):
//! ```text
//!   seg_id         : 16 bits  segment counter
//!   session_id_low :  8 bits  session fingerprint
//!   base_ESI       : 24 bits  symbol number of the first codeword of the segment
//!   flags          :  8 bits  bit 0: meta segment
//!   CRC8           :  8 bits  over the preceding 7 bytes
//! ```

use vstd::prelude::*;
use vstd::slice::slice_subrange;

use crate::be;
use crate::bits;
use crate::constellation;
use crate::constellation::qpsk_gray;
use crate::crc;
use crate::symbol;
use crate::symbol::Symbol;

verus! {

/// Length of the sync pattern in symbols.
pub const MARKER_SYNC_LEN: usize = 32;

/// Length of the control data in symbols.
pub const MARKER_CTRL_LEN: usize = 32;

/// Length of a marker in symbols.
pub const MARKER_LEN: usize = 64;

/// Length of the control data in bytes.
pub const MARKER_CTRL_BYTES: usize = 8;

/// Flag of a meta segment.
pub const META_FLAG_BIT: u8 = 0x01;

/// Phases of the sync pattern in quarter turns.
pub const MARKER_SYNC_PHASES: [u8; 32] = [
    0, 2, 1, 3, 2, 0, 3, 1, 3, 1, 0, 2, 1, 3, 2, 0,
    1, 3, 0, 2, 3, 1, 2, 0, 2, 0, 3, 1, 0, 2, 1, 3,
];

/// The sync pattern: QPSK points at `pi / 4 + phase * pi / 2`.
#[verifier::opaque]
pub open spec fn sync_symbols() -> Seq<Symbol> {
    Seq::new(32, |i: int| symbol::diagonal_point(MARKER_SYNC_PHASES@[i] as int))
}

/// The 32 QPSK symbols of the sync pattern.
pub fn make_sync_pattern() -> (symbols: Vec<Symbol>)
    ensures
        symbols@ == sync_symbols(),
        symbols@.len() == MARKER_SYNC_LEN,
{
    let mut symbols: Vec<Symbol> = Vec::new();
    let mut i: usize = 0;
    while i < 32
        invariant
            i <= 32,
            symbols@.len() == i,
            forall|j: int|
                0 <= j < i ==> #[trigger] symbols@[j] == symbol::diagonal_point(
                    MARKER_SYNC_PHASES@[j] as int,
                ),
        decreases 32 - i,
    {
        symbols.push(Symbol::diagonal(MARKER_SYNC_PHASES[i] as usize));
        i = i + 1;
    }
    proof {
        reveal(sync_symbols);
    }
    assert(symbols@ =~= sync_symbols());
    symbols
}

/// Control data of a marker.
#[derive(Clone, Copy, Debug, PartialEq, Eq, Structural)]
pub struct MarkerPayload {
    pub seg_id: u16,
    pub session_id_low: u8,
    /// A 24-bit value.
    pub base_esi: u32,
    pub flags: u8,
}

impl MarkerPayload {
    /// The symbol number fits its field.
    pub open spec fn valid(self) -> bool {
        self.base_esi < 0x100_0000
    }

    /// The fields in their order on the air.
    pub open spec fn fields(self) -> Seq<u8> {
        be::be16(self.seg_id) + seq![self.session_id_low] + be::be32(self.base_esi).subrange(1, 4)
            + seq![self.flags]
    }

    /// The fields and their CRC.
    pub open spec fn spec_bytes(self) -> Seq<u8> {
        self.fields().push(crc::crc8_of(self.fields()))
    }

    /// The control data in 8 bytes, if their CRC is right.
    pub open spec fn spec_from_bytes(buf: Seq<u8>) -> Option<Self> {
        if crc::crc8_of(buf.take(7)) == buf[7] {
            Some(
                MarkerPayload {
                    seg_id: be::value16(buf[0], buf[1]),
                    session_id_low: buf[2],
                    base_esi: be::value32(0, buf[3], buf[4], buf[5]),
                    flags: buf[6],
                },
            )
        } else {
            None
        }
    }

    /// Whether this marker opens a meta segment.
    pub fn is_meta(&self) -> (meta: bool)
        ensures
            meta == (self.flags & META_FLAG_BIT != 0),
    {
        self.flags & META_FLAG_BIT != 0
    }

    /// Serialize to 8 bytes.
    pub fn to_bytes(&self) -> (buf: [u8; MARKER_CTRL_BYTES])
        requires
            self.valid(),
        ensures
            buf@ == self.spec_bytes(),
    {
        let esi: [u8; 4] = be::bytes32(self.base_esi);
        let fields: [u8; 7] = [
            be::high_byte(self.seg_id),
            be::low_byte(self.seg_id),
            self.session_id_low,
            esi[1],
            esi[2],
            esi[3],
            self.flags,
        ];
        assert(fields@ =~= self.fields());
        let sum: u8 = crc::crc8(fields.as_slice());
        let buf: [u8; MARKER_CTRL_BYTES] = [
            fields[0],
            fields[1],
            fields[2],
            fields[3],
            fields[4],
            fields[5],
            fields[6],
            sum,
        ];
        assert(buf@ =~= self.spec_bytes());
        buf
    }

    /// Deserialize 8 bytes; `None` where the CRC is wrong.
    pub fn from_bytes(buf: &[u8; MARKER_CTRL_BYTES]) -> (payload: Option<Self>)
        ensures
            payload == Self::spec_from_bytes(buf@),
            payload matches Some(p) ==> p.valid(),
    {
        Self::from_slice(buf.as_slice())
    }

    fn from_slice(buf: &[u8]) -> (payload: Option<Self>)
        requires
            buf@.len() == 8,
        ensures
            payload == Self::spec_from_bytes(buf@),
            payload matches Some(p) ==> p.valid(),
    {
        let fields = slice_subrange(buf, 0, 7);
        assert(fields@ =~= buf@.take(7));
        if crc::crc8(fields) != buf[7] {
            return None;
        }
        Some(
            MarkerPayload {
                seg_id: be::join16(buf[0], buf[1]),
                session_id_low: buf[2],
                base_esi: be::join32(0, buf[3], buf[4], buf[5]),
                flags: buf[6],
            },
        )
    }
}

/// The QPSK symbols of control data.
pub open spec fn control_symbols(payload: MarkerPayload) -> Seq<Symbol> {
    constellation::mapped(constellation::qpsk_points(), 2, bits::unpack(payload.spec_bytes()))
}

/// A marker has 64 symbols.
pub proof fn lemma_marker_len(payload: MarkerPayload)
    ensures
        sync_symbols().len() == MARKER_SYNC_LEN,
        control_symbols(payload).len() == MARKER_CTRL_LEN,
{
    reveal(sync_symbols);
}

/// The control data in received symbols, decided symbol by symbol.
pub open spec fn control_of(symbols: Seq<Symbol>) -> Option<MarkerPayload> {
    if symbols.len() != MARKER_CTRL_LEN {
        None
    } else {
        let labels = constellation::decided(constellation::qpsk_points(), symbols);
        MarkerPayload::spec_from_bytes(bits::pack(constellation::unmapped(labels, 2)))
    }
}

/// Map control data to 32 QPSK symbols.
pub fn encode_control_symbols(payload: &MarkerPayload) -> (symbols: Vec<Symbol>)
    requires
        payload.valid(),
    ensures
        symbols@ == control_symbols(*payload),
        symbols@.len() == MARKER_CTRL_LEN,
{
    let bytes = payload.to_bytes();
    let bits = bits::bytes_to_bits(bytes.as_slice());
    let qpsk = qpsk_gray();
    qpsk.map_bits(bits.as_slice())
}

/// Decode 32 QPSK symbols; `None` where there are not 32 or the CRC is wrong.
pub fn decode_control_symbols(symbols: &[Symbol]) -> (payload: Option<MarkerPayload>)
    requires
        forall|i: int| 0 <= i < symbols@.len() ==> (#[trigger] symbols@[i]).in_reach(),
    ensures
        payload == control_of(symbols@),
        payload matches Some(p) ==> p.valid(),
{
    if symbols.len() != MARKER_CTRL_LEN {
        return None;
    }
    let qpsk = qpsk_gray();
    let labels = qpsk.slice_nearest(symbols);
    let decided_bits = qpsk.symbols_to_bits(labels.as_slice());
    let bytes = bits::bits_to_bytes(decided_bits.as_slice());
    assert(bytes@.len() == 8) by {
        assert(bits::unpack(bytes@).len() == 64);
    }
    MarkerPayload::from_slice(bytes.as_slice())
}

/// A complete marker: the sync pattern and the control data.
pub fn make_marker(payload: &MarkerPayload) -> (symbols: Vec<Symbol>)
    requires
        payload.valid(),
    ensures
        symbols@ == sync_symbols() + control_symbols(*payload),
        symbols@.len() == MARKER_LEN,
{
    let mut symbols = make_sync_pattern();
    let mut control = encode_control_symbols(payload);
    symbols.append(&mut control);
    symbols
}

// ---------------------------------------------------------------------------
// Laws
// ---------------------------------------------------------------------------

/// Control data is read back from its bytes, and only from them.
pub proof fn law_marker_round_trip(payload: MarkerPayload, buf: Seq<u8>)
    requires
        payload.valid(),
        buf.len() == MARKER_CTRL_BYTES,
    ensures
        payload.spec_bytes().len() == MARKER_CTRL_BYTES,
        MarkerPayload::spec_from_bytes(buf) == Some(payload) <==> buf == payload.spec_bytes(),
{
    let fields = payload.fields();
    if buf == payload.spec_bytes() {
        assert(buf.take(7) =~= fields);
        be::law_be16_round_trip(payload.seg_id, 0, 0);
        be::law_be32_round_trip(payload.base_esi, 0, 0, 0, 0);
        assert(be::be32(payload.base_esi)[0] == 0);
    }
    if MarkerPayload::spec_from_bytes(buf) == Some(payload) {
        be::law_be16_round_trip(0, buf[0], buf[1]);
        be::law_be32_round_trip(0, 0, buf[3], buf[4], buf[5]);
        assert(buf.take(7) =~= fields);
        assert(buf =~= payload.spec_bytes());
    }
}

/// Control data with one changed byte is refused.
pub proof fn law_changed_marker_is_refused(payload: MarkerPayload, buf: Seq<u8>, i: int)
    requires
        payload.valid(),
        crc::differ_only_at(payload.spec_bytes(), buf, i),
    ensures
        MarkerPayload::spec_from_bytes(buf) is None,
{
    let good = payload.spec_bytes();
    let fields = payload.fields();
    assert(good.take(7) =~= fields);
    if i < 7 {
        let changed = buf.take(7);
        assert(crc::differ_only_at(fields, changed, i));
        crc::law_crc8_catches_a_changed_byte(fields, changed, i);
    } else {
        assert(buf.take(7) =~= fields);
    }
}

/// Control data survives mapping to symbols and back.
pub proof fn law_control_symbols_round_trip(payload: MarkerPayload)
    requires
        payload.valid(),
    ensures
        control_of(control_symbols(payload)) == Some(payload),
{
    let points = constellation::qpsk_points();
    let bytes = payload.spec_bytes();
    let sent = bits::unpack(bytes);
    let symbols = control_symbols(payload);
    law_marker_round_trip(payload, bytes);
    assert(sent.len() == 64);
    assert(symbols.len() == 32);
    let labels = constellation::decided(points, symbols);
    let out = constellation::unmapped(labels, 2);
    assert(out.len() == 64);
    assert forall|p: int| 0 <= p < 64 implies out[p] == sent[p] by {
        let i = p / 2;
        let k = p % 2;
        let chunk = sent.subrange(i * 2, i * 2 + 2);
        constellation::lemma_label_bound(chunk);
        vstd::arithmetic::power2::lemma2_to64();
        let label = constellation::label_of(chunk);
        assert(symbols[i] == points[label]);
        constellation::lemma_qpsk_decides(label);
        constellation::law_label_bits_undo_label(chunk, k);
        assert(chunk[k] == sent[p]);
        bits::lemma_bit_is_binary(bytes[p / 8], p % 8);
    }
    assert(out =~= sent);
    bits::lemma_pack_of_unpack(bytes);
}

/// On the air a marker is the number of its segment, the low byte of its session, the number
/// of its first codeword in three bytes and its flags, each with its highest byte first, and
/// then a CRC over all of these.
pub proof fn law_marker_layout(p: MarkerPayload)
    requires
        p.valid(),
    ensures
        ({
            let b = p.spec_bytes();
            &&& b.len() == 8
            &&& b[0] * 0x100 + b[1] == p.seg_id
            &&& b[2] == p.session_id_low
            &&& b[3] * 0x1_0000 + b[4] * 0x100 + b[5] == p.base_esi
            &&& b[6] == p.flags
            &&& b[7] == crc::crc8_of(b.take(7))
        }),
{
    be::law_bytes_are_digits(p.seg_id, p.base_esi);
    let b = p.spec_bytes();
    assert(b.take(7) =~= p.fields());
}

} // verus!
