//! Session metadata carried in meta segments.
//!
//! Layout (17 bytes, integers big-endian):
//! ```text
//!   session_id  : 4 B
//!   file_size   : 4 B  total payload size in bytes
//!   k_symbols   : 2 B  source symbols of the fountain code
//!   t_bytes     : 1 B  symbol size
//!   mode_code   : 1 B  modem mode
//!   mime_type   : 1 B  content type
//!   hash_short  : 2 B  truncated content hash
//!   crc16       : 2 B  CRC-16 over the preceding 15 bytes
//! ```
//!
//! The header is written four times into the codeword of a meta segment, each copy
//! with its own CRC, so that one intact copy is enough.

use vstd::prelude::*;
use vstd::slice::slice_subrange;

use crate::be;
use crate::crc;

pub mod mime;

verus! {

/// Serialized size of one header, with its CRC.
pub const APP_HEADER_SIZE: usize = 17;

/// Copies of the header in a meta codeword.
pub const APP_HEADER_COPIES: usize = 4;

// ---------------------------------------------------------------------------
// Session identifier
// ---------------------------------------------------------------------------

/// FNV-1a hash, 32 bits.
pub open spec fn fnv1a(data: Seq<u8>) -> u32
    decreases data.len(),
{
    if data.len() == 0 {
        0x811C_9DC5
    } else {
        (fnv1a(data.drop_last()) ^ (data.last() as u32)).wrapping_mul(0x0100_0193)
    }
}

/// Identifier of a session: content hash, mixed with mode and profile.
pub open spec fn session_id_of(content: Seq<u8>, mode_code: u8, profile_index: u8) -> u32 {
    fnv1a(content) ^ ((mode_code as u32) << 16) ^ ((profile_index as u32) << 24)
}

/// FNV-1a hash of some bytes.
fn hash_bytes(data: &[u8]) -> (h: u32)
    ensures
        h == fnv1a(data@),
{
    let mut h: u32 = 0x811C_9DC5;
    let mut i: usize = 0;
    assert(data@.take(0) =~= Seq::<u8>::empty());
    while i < data.len()
        invariant
            i <= data.len(),
            h == fnv1a(data@.take(i as int)),
        decreases data.len() - i,
    {
        proof {
            let next = data@.take(i + 1);
            assert(next.drop_last() =~= data@.take(i as int));
            assert(next.last() == data@[i as int]);
        }
        h = (h ^ (data[i] as u32)).wrapping_mul(0x0100_0193);
        i = i + 1;
    }
    assert(data@.take(i as int) =~= data@);
    h
}

/// Identifier of a session, from the content and the transmission mode.
///
/// The same content in the same mode always gives the same identifier, so that a
/// receiver collects repeated transmissions into one session.
pub fn compute_session_id(content: &[u8], mode_code: u8, profile_index: u8) -> (id: u32)
    ensures
        id == session_id_of(content@, mode_code, profile_index),
{
    hash_bytes(content) ^ ((mode_code as u32) << 16) ^ ((profile_index as u32) << 24)
}

/// The hash folded to 16 bits, as a session header carries it.
pub open spec fn content_hash(data: Seq<u8>) -> u16 {
    (fnv1a(data) ^ (fnv1a(data) >> 16)) as u16
}

/// Hash of a payload, folded to 16 bits, to compare with `AppHeader::hash_short`.
pub fn fnv1a_u16(data: &[u8]) -> (h: u16)
    ensures
        h == content_hash(data@),
{
    let h: u32 = hash_bytes(data);
    #[verifier::truncate]
    ((h ^ (h >> 16)) as u16)
}

/// The same content in another mode or profile is another session.
pub proof fn law_session_rolls_with_the_mode(content: Seq<u8>, m: u8, p: u8, n: u8, q: u8)
    requires
        m != n || p != q,
    ensures
        session_id_of(content, m, p) != session_id_of(content, n, q),
{
    let h = fnv1a(content);
    assert(h ^ ((m as u32) << 16) ^ ((p as u32) << 24) != h ^ ((n as u32) << 16) ^ ((q as u32)
        << 24)) by (bit_vector)
        requires
            m != n || p != q,
    ;
}

/// The FNV prime has an inverse modulo 2^32.
proof fn lemma_fnv_step_is_injective(a: u32, b: u32)
    requires
        a.wrapping_mul(0x0100_0193) == b.wrapping_mul(0x0100_0193),
    ensures
        a == b,
{
    let m: int = 0x1_0000_0000;
    let p: int = 0x0100_0193;
    let inv: int = 0x359C_449B;
    let k: int = (p * inv - 1) / m;
    assert(p * inv == 1 + k * m);
    lemma_undo_product(a as int, p, inv, k, m);
    lemma_undo_product(b as int, p, inv, k, m);
}

proof fn lemma_undo_product(a: int, p: int, inv: int, k: int, m: int)
    requires
        0 <= a < m,
        p * inv == 1 + k * m,
    ensures
        (((a * p) % m) * inv) % m == a,
{
    vstd::arithmetic::div_mod::lemma_mul_mod_noop_left(a * p, inv, m);
    assert((a * p) * inv == m * (a * k) + a) by (nonlinear_arith)
        requires
            p * inv == 1 + k * m,
    ;
    vstd::arithmetic::div_mod::lemma_mod_multiples_vanish(a * k, a, m);
    vstd::arithmetic::div_mod::lemma_small_mod(a as nat, m as nat);
}

proof fn lemma_fnv_differs(a: Seq<u8>, b: Seq<u8>, i: int)
    requires
        crc::differ_only_at(a, b, i),
    ensures
        fnv1a(a) != fnv1a(b),
    decreases a.len(),
{
    let c = a.drop_last();
    let d = b.drop_last();
    if i == a.len() - 1 {
        assert(c =~= d);
    } else {
        lemma_fnv_differs(c, d, i);
    }
    let f = fnv1a(c);
    let g = fnv1a(d);
    let x = a.last();
    let y = b.last();
    assert(f ^ (x as u32) != g ^ (y as u32)) by (bit_vector)
        requires
            f == g && x != y || f != g && x == y,
    ;
    if fnv1a(a) == fnv1a(b) {
        lemma_fnv_step_is_injective(f ^ (x as u32), g ^ (y as u32));
    }
}

/// Contents of one length that differ in one byte are different sessions.
pub proof fn law_session_rolls_with_a_changed_byte(
    a: Seq<u8>,
    b: Seq<u8>,
    i: int,
    mode_code: u8,
    profile_index: u8,
)
    requires
        crc::differ_only_at(a, b, i),
    ensures
        session_id_of(a, mode_code, profile_index) != session_id_of(b, mode_code, profile_index),
{
    lemma_fnv_differs(a, b, i);
    let f = fnv1a(a);
    let g = fnv1a(b);
    assert(f ^ ((mode_code as u32) << 16) ^ ((profile_index as u32) << 24) != g ^ ((
    mode_code as u32) << 16) ^ ((profile_index as u32) << 24)) by (bit_vector)
        requires
            f != g,
    ;
}

// ---------------------------------------------------------------------------
// Header
// ---------------------------------------------------------------------------

/// Session-level header.
#[derive(Clone, Copy, Debug, PartialEq, Eq, Structural)]
pub struct AppHeader {
    pub session_id: u32,
    pub file_size: u32,
    pub k_symbols: u16,
    pub t_bytes: u8,
    pub mode_code: u8,
    pub mime_type: u8,
    pub hash_short: u16,
}

impl AppHeader {
    /// The fields in their order on the air.
    pub open spec fn fields(self) -> Seq<u8> {
        be::be32(self.session_id) + be::be32(self.file_size) + be::be16(self.k_symbols) + seq![
            self.t_bytes,
            self.mode_code,
            self.mime_type,
        ] + be::be16(self.hash_short)
    }

    /// The fields and their CRC.
    pub open spec fn spec_bytes(self) -> Seq<u8> {
        self.fields() + be::be16(crc::crc16_of(self.fields()))
    }

    /// The header in 17 bytes, if their CRC is right.
    pub open spec fn spec_from_bytes(buf: Seq<u8>) -> Option<Self> {
        if crc::crc16_of(buf.take(15)) == be::value16(buf[15], buf[16]) {
            Some(
                AppHeader {
                    session_id: be::value32(buf[0], buf[1], buf[2], buf[3]),
                    file_size: be::value32(buf[4], buf[5], buf[6], buf[7]),
                    k_symbols: be::value16(buf[8], buf[9]),
                    t_bytes: buf[10],
                    mode_code: buf[11],
                    mime_type: buf[12],
                    hash_short: be::value16(buf[13], buf[14]),
                },
            )
        } else {
            None
        }
    }

    /// Serialize to 17 bytes: the fields and their CRC-16.
    pub fn to_bytes(&self) -> (buf: [u8; APP_HEADER_SIZE])
        ensures
            buf@ == self.spec_bytes(),
    {
        let s: [u8; 4] = be::bytes32(self.session_id);
        let f: [u8; 4] = be::bytes32(self.file_size);
        let fields: [u8; 15] = [
            s[0],
            s[1],
            s[2],
            s[3],
            f[0],
            f[1],
            f[2],
            f[3],
            be::high_byte(self.k_symbols),
            be::low_byte(self.k_symbols),
            self.t_bytes,
            self.mode_code,
            self.mime_type,
            be::high_byte(self.hash_short),
            be::low_byte(self.hash_short),
        ];
        assert(fields@ =~= self.fields());
        let crc: u16 = crc::crc16(fields.as_slice());
        let buf: [u8; APP_HEADER_SIZE] = [
            fields[0],
            fields[1],
            fields[2],
            fields[3],
            fields[4],
            fields[5],
            fields[6],
            fields[7],
            fields[8],
            fields[9],
            fields[10],
            fields[11],
            fields[12],
            fields[13],
            fields[14],
            be::high_byte(crc),
            be::low_byte(crc),
        ];
        assert(buf@ =~= self.spec_bytes());
        buf
    }

    /// Deserialize 17 bytes; `None` where the CRC is wrong.
    pub fn from_bytes(buf: &[u8; APP_HEADER_SIZE]) -> (header: Option<Self>)
        ensures
            header == Self::spec_from_bytes(buf@),
    {
        Self::from_slice(buf.as_slice())
    }

    /// Deserialize 17 bytes; `None` where the CRC is wrong.
    fn from_slice(buf: &[u8]) -> (header: Option<Self>)
        requires
            buf@.len() == 17,
        ensures
            header == Self::spec_from_bytes(buf@),
    {
        let fields = slice_subrange(buf, 0, 15);
        assert(fields@ =~= buf@.take(15));
        let expected: u16 = crc::crc16(fields);
        let got: u16 = be::join16(buf[15], buf[16]);
        if expected != got {
            return None;
        }
        Some(
            AppHeader {
                session_id: be::join32(buf[0], buf[1], buf[2], buf[3]),
                file_size: be::join32(buf[4], buf[5], buf[6], buf[7]),
                k_symbols: be::join16(buf[8], buf[9]),
                t_bytes: buf[10],
                mode_code: buf[11],
                mime_type: buf[12],
                hash_short: be::join16(buf[13], buf[14]),
            },
        )
    }
}

/// A header is read back from its bytes, and only from them.
pub proof fn law_header_round_trip(header: AppHeader, buf: Seq<u8>)
    requires
        buf.len() == APP_HEADER_SIZE,
    ensures
        header.spec_bytes().len() == APP_HEADER_SIZE,
        AppHeader::spec_from_bytes(buf) == Some(header) <==> buf == header.spec_bytes(),
{
    let fields = header.fields();
    let sum = crc::crc16_of(fields);
    if buf == header.spec_bytes() {
        assert(buf.take(15) =~= fields);
        be::law_be16_round_trip(sum, 0, 0);
        be::law_be16_round_trip(header.k_symbols, 0, 0);
        be::law_be16_round_trip(header.hash_short, 0, 0);
        be::law_be32_round_trip(header.session_id, 0, 0, 0, 0);
        be::law_be32_round_trip(header.file_size, 0, 0, 0, 0);
    }
    if AppHeader::spec_from_bytes(buf) == Some(header) {
        be::law_be16_round_trip(0, buf[15], buf[16]);
        be::law_be16_round_trip(0, buf[8], buf[9]);
        be::law_be16_round_trip(0, buf[13], buf[14]);
        be::law_be32_round_trip(0, buf[0], buf[1], buf[2], buf[3]);
        be::law_be32_round_trip(0, buf[4], buf[5], buf[6], buf[7]);
        assert(buf.take(15) =~= fields);
        assert(buf =~= header.spec_bytes());
    }
}

/// A header with one changed byte is refused.
pub proof fn law_changed_header_is_refused(header: AppHeader, buf: Seq<u8>, i: int)
    requires
        crc::differ_only_at(header.spec_bytes(), buf, i),
    ensures
        AppHeader::spec_from_bytes(buf) is None,
{
    let good = header.spec_bytes();
    let fields = header.fields();
    assert(good.take(15) =~= fields);
    let sum = crc::crc16_of(fields);
    be::law_be16_round_trip(sum, buf[15], buf[16]);
    if i < 15 {
        let changed = buf.take(15);
        assert(crc::differ_only_at(fields, changed, i));
        crc::law_crc16_catches_a_changed_byte(fields, changed, i);
    } else {
        assert(buf.take(15) =~= fields);
        assert(be::be16(value_of_tail(buf)) =~= seq![buf[15], buf[16]]);
    }
}

spec fn value_of_tail(buf: Seq<u8>) -> u16 {
    be::value16(buf[15], buf[16])
}

// ---------------------------------------------------------------------------
// Meta payload
// ---------------------------------------------------------------------------

/// Copy `c` of the header in a meta payload.
pub open spec fn copy_of(payload: Seq<u8>, c: int) -> Seq<u8> {
    payload.subrange(17 * c, 17 * c + 17)
}

/// The first readable copy from copy `c` on.
pub open spec fn first_copy(payload: Seq<u8>, c: int) -> Option<AppHeader>
    decreases 4 - c,
{
    if c >= 4 {
        None
    } else {
        match AppHeader::spec_from_bytes(copy_of(payload, c)) {
            Some(header) => Some(header),
            None => first_copy(payload, c + 1),
        }
    }
}

/// The header in a meta payload.
pub open spec fn meta_of(payload: Seq<u8>) -> Option<AppHeader> {
    if payload.len() < 68 {
        None
    } else {
        first_copy(payload, 0)
    }
}

/// The payload of a meta codeword: four copies of the header, then zeros.
pub open spec fn meta_payload(header: AppHeader, payload_size: nat) -> Seq<u8> {
    Seq::new(
        payload_size,
        |i: int|
            if i < 68 {
                header.spec_bytes()[i % 17]
            } else {
                0u8
            },
    )
}

/// Fill a meta codeword payload with four copies of the header and zeros.
pub fn encode_meta_payload(header: &AppHeader, payload_size: usize) -> (payload: Vec<u8>)
    requires
        payload_size >= APP_HEADER_SIZE * APP_HEADER_COPIES,
    ensures
        payload@ == meta_payload(*header, payload_size as nat),
{
    let bytes = header.to_bytes();
    let mut payload: Vec<u8> = Vec::new();
    let mut i: usize = 0;
    while i < payload_size
        invariant
            i <= payload_size,
            bytes@ == header.spec_bytes(),
            payload@.len() == i,
            forall|j: int|
                0 <= j < i ==> #[trigger] payload@[j] == if j < 68 {
                    header.spec_bytes()[j % 17]
                } else {
                    0u8
                },
        decreases payload_size - i,
    {
        if i < APP_HEADER_SIZE * APP_HEADER_COPIES {
            payload.push(bytes[i % APP_HEADER_SIZE]);
        } else {
            payload.push(0);
        }
        i = i + 1;
    }
    assert(payload@ =~= meta_payload(*header, payload_size as nat));
    payload
}

/// Recover the header from a meta codeword payload: the first copy whose CRC is
/// right, or `None` if there is none or the payload is too short for the copies.
pub fn decode_meta_payload(payload: &[u8]) -> (header: Option<AppHeader>)
    ensures
        header == meta_of(payload@),
{
    if payload.len() < APP_HEADER_SIZE * APP_HEADER_COPIES {
        return None;
    }
    let mut c: usize = 0;
    while c < APP_HEADER_COPIES
        invariant
            c <= 4,
            payload@.len() >= 68,
            first_copy(payload@, 0) == first_copy(payload@, c as int),
        decreases 4 - c,
    {
        let start: usize = c * APP_HEADER_SIZE;
        let buf = slice_subrange(payload, start, start + APP_HEADER_SIZE);
        assert(buf@ =~= copy_of(payload@, c as int));
        match AppHeader::from_slice(buf) {
            Some(header) => {
                return Some(header);
            },
            None => {},
        }
        c = c + 1;
    }
    None
}

proof fn lemma_first_copy(payload: Seq<u8>, header: AppHeader, c: int, k: int)
    requires
        0 <= c <= k < 4,
        AppHeader::spec_from_bytes(copy_of(payload, k)) == Some(header),
        forall|j: int|
            0 <= j < 4 ==> {
                ||| AppHeader::spec_from_bytes(#[trigger] copy_of(payload, j)) == Some(header)
                ||| AppHeader::spec_from_bytes(copy_of(payload, j)) is None
            },
    ensures
        first_copy(payload, c) == Some(header),
    decreases k - c,
{
    assert(copy_of(payload, c) == copy_of(payload, c));
    if AppHeader::spec_from_bytes(copy_of(payload, c)) is None {
        lemma_first_copy(payload, header, c + 1, k);
    }
}

/// One intact copy is enough: a payload of which every copy is intact or refused,
/// and at least one is intact, still gives the header.
pub proof fn law_one_intact_copy_is_enough(payload: Seq<u8>, header: AppHeader, k: int)
    requires
        payload.len() >= 68,
        0 <= k < 4,
        copy_of(payload, k) == header.spec_bytes(),
        forall|j: int|
            0 <= j < 4 ==> {
                ||| #[trigger] copy_of(payload, j) == header.spec_bytes()
                ||| AppHeader::spec_from_bytes(copy_of(payload, j)) is None
            },
    ensures
        meta_of(payload) == Some(header),
{
    assert forall|j: int| 0 <= j < 4 implies {
        ||| AppHeader::spec_from_bytes(#[trigger] copy_of(payload, j)) == Some(header)
        ||| AppHeader::spec_from_bytes(copy_of(payload, j)) is None
    } by {
        law_header_round_trip(header, copy_of(payload, j));
    }
    law_header_round_trip(header, copy_of(payload, k));
    lemma_first_copy(payload, header, 0, k);
}

/// What was encoded into a meta payload is decoded from it.
pub proof fn law_meta_payload_round_trip(header: AppHeader, payload_size: nat)
    requires
        payload_size >= 68,
    ensures
        meta_of(meta_payload(header, payload_size)) == Some(header),
{
    let payload = meta_payload(header, payload_size);
    law_header_round_trip(header, payload.take(17));
    assert forall|j: int| 0 <= j < 4 implies #[trigger] copy_of(payload, j)
        == header.spec_bytes() by {
        assert(copy_of(payload, j) =~= header.spec_bytes()) by {
            assert forall|i: int| 0 <= i < 17 implies copy_of(payload, j)[i]
                == header.spec_bytes()[i] by {
                assert((17 * j + i) % 17 == i);
            }
        }
    }
    law_one_intact_copy_is_enough(payload, header, 0);
}

/// No copy is readable if and only if there is no header.
pub proof fn law_no_readable_copy_means_no_header(payload: Seq<u8>)
    requires
        payload.len() >= 68,
    ensures
        meta_of(payload) is None <==> forall|j: int|
            0 <= j < 4 ==> AppHeader::spec_from_bytes(#[trigger] copy_of(payload, j)) is None,
{
    assert(copy_of(payload, 0) == copy_of(payload, 0));
    assert(copy_of(payload, 1) == copy_of(payload, 1));
    assert(copy_of(payload, 2) == copy_of(payload, 2));
    assert(copy_of(payload, 3) == copy_of(payload, 3));
    reveal_with_fuel(first_copy, 5);
}

// ---------------------------------------------------------------------------
// Laws on layout and hashes
// ---------------------------------------------------------------------------

/// On the air a header is its session, its size, its number of packets, their size, mode,
/// type and hash, each with its highest byte first, and then a CRC over all of these.
pub proof fn law_header_layout(h: AppHeader)
    ensures
        ({
            let b = h.spec_bytes();
            &&& b.len() == 17
            &&& b[0] * 0x100_0000 + b[1] * 0x1_0000 + b[2] * 0x100 + b[3] == h.session_id
            &&& b[4] * 0x100_0000 + b[5] * 0x1_0000 + b[6] * 0x100 + b[7] == h.file_size
            &&& b[8] * 0x100 + b[9] == h.k_symbols
            &&& b[10] == h.t_bytes
            &&& b[11] == h.mode_code
            &&& b[12] == h.mime_type
            &&& b[13] * 0x100 + b[14] == h.hash_short
            &&& b[15] * 0x100 + b[16] == crc::crc16_of(b.take(15))
        }),
{
    be::law_bytes_are_digits(h.k_symbols, h.session_id);
    be::law_bytes_are_digits(h.hash_short, h.file_size);
    let b = h.spec_bytes();
    assert(b.take(15) =~= h.fields());
    be::law_bytes_are_digits(crc::crc16_of(h.fields()), 0);
}

/// A meta payload holds the header four times, one behind the other, and then zeros.
pub proof fn law_meta_payload_holds_four_copies(header: AppHeader, payload_size: nat, c: int, i: int)
    requires
        payload_size >= 4 * 17,
        0 <= c < 4,
        0 <= i,
    ensures
        ({
            let payload = meta_payload(header, payload_size);
            &&& payload.len() == payload_size
            &&& i < 17 ==> payload[17 * c + i] == header.spec_bytes()[i]
            &&& 4 * 17 <= i < payload_size ==> payload[i] == 0
        }),
{
    if i < 17 {
        assert((17 * c + i) % 17 == i);
    }
}

/// The hash takes in one byte after the other: by exclusive or, and then times the prime
/// 16777619, modulo 2^32. It starts at 2166136261.
pub proof fn law_hash_takes_in_every_byte(data: Seq<u8>, b: u8)
    ensures
        fnv1a(Seq::empty()) == 2166136261,
        fnv1a(data.push(b)) == ((fnv1a(data) ^ (b as u32)) as int * 16777619) % 0x1_0000_0000,
{
    assert(data.push(b).drop_last() =~= data);
    assert(data.push(b).last() == b);
}

/// Without mode and profile the session is named by the hash of its content; the mode adds
/// to the second byte of it and the profile to the first.
pub proof fn law_session_mixes_mode_and_profile(content: Seq<u8>, mode: u8, profile: u8)
    ensures
        session_id_of(content, 0, 0) == fnv1a(content),
        session_id_of(content, mode, profile) ^ session_id_of(content, 0, 0) == 0x1_0000 * (
        mode as u32) + 0x100_0000 * (profile as u32),
        content_hash(content) as u32 == (fnv1a(content) % 0x1_0000) as u32 ^ (fnv1a(content)
            / 0x1_0000) as u32,
{
    let h = fnv1a(content);
    let (m, p) = (mode as u32, profile as u32);
    assert(h ^ (0u32 << 16) ^ (0u32 << 24) == h && (h ^ (m << 16) ^ (p << 24)) ^ h == 0x1_0000 * m
        + 0x100_0000 * p && ((h ^ (h >> 16)) as u16) as u32 == (h % 0x1_0000) ^ (h / 0x1_0000))
        by (bit_vector)
        requires
            m < 256,
            p < 256,
    ;
}

/// Of copies that differ, the first that can be read counts.
pub proof fn law_first_readable_copy_counts(payload: Seq<u8>, header: AppHeader, c: int)
    requires
        payload.len() >= 68,
        0 <= c < 4,
        AppHeader::spec_from_bytes(payload.subrange(17 * c, 17 * c + 17)) == Some(header),
        forall|j: int|
            0 <= j < c ==> AppHeader::spec_from_bytes(#[trigger] copy_of(payload, j)) is None,
    ensures
        meta_of(payload) == Some(header),
{
    assert(c > 0 ==> AppHeader::spec_from_bytes(copy_of(payload, 0)) is None);
    assert(c > 1 ==> AppHeader::spec_from_bytes(copy_of(payload, 1)) is None);
    assert(c > 2 ==> AppHeader::spec_from_bytes(copy_of(payload, 2)) is None);
    reveal_with_fuel(first_copy, 5);
}

/// A payload that is too short for four copies gives no header.
pub proof fn law_short_payload_gives_no_header(payload: Seq<u8>)
    requires
        payload.len() < 4 * 17,
    ensures
        meta_of(payload) is None,
{
}

} // verus!
