//! Envelope around the user content: file name and operator callsign.
//!
//! Wire format (version 1):
//! ```text
//!   version       : 1 B  1
//!   len_filename  : 1 B  0..=64
//!   filename      : N B  UTF-8, no NUL
//!   len_callsign  : 1 B  0..=10
//!   callsign      : M B  no NUL
//!   content       : rest
//! ```

use vstd::prelude::*;
use vstd::slice::slice_subrange;
use vstd::utf8;

verus! {

/// Version of the envelopes that are written.
pub const ENVELOPE_VERSION: u8 = 1;

/// Longest file name, in bytes of UTF-8.
pub const MAX_FILENAME_BYTES: usize = 64;

/// Longest callsign, in bytes.
pub const MAX_CALLSIGN_BYTES: usize = 10;

/// Size of the version and the two lengths.
pub const MIN_ENVELOPE_HEADER: usize = 3;

/// Content with its file name and callsign.
#[derive(Clone, Debug, PartialEq, Eq)]
pub struct PayloadEnvelope {
    pub version: u8,
    pub filename: String,
    pub callsign: String,
    pub content: Vec<u8>,
}

/// Why bytes are no envelope.
#[derive(Clone, Copy, Debug, PartialEq, Eq, Structural)]
pub enum EnvelopeError {
    TooShort,
    UnsupportedVersion(u8),
    FilenameTooLong(usize),
    CallsignTooLong(usize),
    FilenameInvalidUtf8,
    TruncatedHeader,
}

// ---------------------------------------------------------------------------
// Layout
// ---------------------------------------------------------------------------

/// Where the file name ends.
pub open spec fn name_end(buf: Seq<u8>) -> int {
    2 + buf[1] as int
}

/// Where the callsign ends.
pub open spec fn call_end(buf: Seq<u8>) -> int {
    name_end(buf) + 1 + buf[name_end(buf)] as int
}

/// Bytes of the file name.
pub open spec fn name_bytes(buf: Seq<u8>) -> Seq<u8> {
    buf.subrange(2, name_end(buf))
}

/// Bytes of the callsign.
pub open spec fn call_bytes(buf: Seq<u8>) -> Seq<u8> {
    buf.subrange(name_end(buf) + 1, call_end(buf))
}

/// Bytes of the content.
pub open spec fn content_bytes(buf: Seq<u8>) -> Seq<u8> {
    buf.subrange(call_end(buf), buf.len() as int)
}

/// The first thing wrong with some bytes, if anything is.
pub open spec fn fault_of(buf: Seq<u8>) -> Option<EnvelopeError> {
    if buf.len() < 3 {
        Some(EnvelopeError::TooShort)
    } else if buf[0] != 1 {
        Some(EnvelopeError::UnsupportedVersion(buf[0]))
    } else if buf[1] > 64 {
        Some(EnvelopeError::FilenameTooLong(buf[1] as usize))
    } else if buf.len() < name_end(buf) + 1 {
        Some(EnvelopeError::TruncatedHeader)
    } else if !utf8::valid_utf8(name_bytes(buf)) {
        Some(EnvelopeError::FilenameInvalidUtf8)
    } else if buf[name_end(buf)] > 10 {
        Some(EnvelopeError::CallsignTooLong(buf[name_end(buf)] as usize))
    } else if buf.len() < call_end(buf) {
        Some(EnvelopeError::TruncatedHeader)
    } else {
        None
    }
}

/// An envelope holds what some bytes say.
pub open spec fn holds(env: PayloadEnvelope, buf: Seq<u8>) -> bool {
    &&& env.version == ENVELOPE_VERSION
    &&& env.filename@ == utf8::decode_utf8(name_bytes(buf))
    &&& env.callsign@ == lossy_text(call_bytes(buf))
    &&& utf8::valid_utf8(call_bytes(buf)) ==> env.callsign@ == utf8::decode_utf8(call_bytes(buf))
    &&& env.content@ == content_bytes(buf)
}

/// What reading some bytes gives: the first fault, or the envelope they hold.
pub open spec fn is_reading(env: Result<PayloadEnvelope, EnvelopeError>, buf: Seq<u8>) -> bool {
    match fault_of(buf) {
        Some(e) => env == Err::<PayloadEnvelope, EnvelopeError>(e),
        None => env matches Ok(v) && holds(v, buf),
    }
}

/// The file name in some bytes; empty where they are no envelope.
pub open spec fn name_of(buf: Seq<u8>) -> Seq<char> {
    if fault_of(buf) is None {
        utf8::decode_utf8(name_bytes(buf))
    } else {
        Seq::empty()
    }
}

/// The callsign in some bytes; empty where they are no envelope.
pub open spec fn callsign_of(buf: Seq<u8>) -> Seq<char> {
    if fault_of(buf) is Some {
        Seq::empty()
    } else if utf8::valid_utf8(call_bytes(buf)) {
        utf8::decode_utf8(call_bytes(buf))
    } else {
        lossy_text(call_bytes(buf))
    }
}

/// The content in some bytes; all of them where they are no envelope.
pub open spec fn content_of(buf: Seq<u8>) -> Seq<u8> {
    if fault_of(buf) is None {
        content_bytes(buf)
    } else {
        buf
    }
}

/// A byte sequence as text, with replacement characters where it is not UTF-8.
pub uninterp spec fn lossy_text(bytes: Seq<u8>) -> Seq<char>;

/// `String::from_utf8_lossy`: the result depends on the bytes alone, and is the
/// decoded text where the bytes are UTF-8.
#[verifier::external_body]
fn to_lossy_text(bytes: &[u8]) -> (text: String)
    ensures
        text@ == lossy_text(bytes@),
        utf8::valid_utf8(bytes@) ==> text@ == utf8::decode_utf8(bytes@),
{
    String::from_utf8_lossy(bytes).into_owned()
}

/// `str::from_utf8`: the decoded text if the bytes are UTF-8, and `None` otherwise.
#[verifier::external_body]
fn to_text(bytes: &[u8]) -> (text: Option<String>)
    ensures
        text is Some <==> utf8::valid_utf8(bytes@),
        text matches Some(t) ==> t@ == utf8::decode_utf8(bytes@),
{
    std::str::from_utf8(bytes).ok().map(str::to_owned)
}

/// Whether some bytes hold a zero.
fn has_zero(bytes: &[u8]) -> (zero: bool)
    ensures
        zero == bytes@.contains(0u8),
{
    let mut i: usize = 0;
    while i < bytes.len()
        invariant
            i <= bytes@.len(),
            forall|j: int| 0 <= j < i ==> #[trigger] bytes@[j] != 0,
        decreases bytes@.len() - i,
    {
        if bytes[i] == 0 {
            assert(bytes@[i as int] == 0);
            return true;
        }
        i = i + 1;
    }
    false
}

/// Copy of some bytes from `start` on.
fn copy_from(buf: &[u8], start: usize) -> (out: Vec<u8>)
    requires
        start <= buf@.len(),
    ensures
        out@ == buf@.subrange(start as int, buf@.len() as int),
{
    let mut out: Vec<u8> = Vec::new();
    let mut i: usize = start;
    while i < buf.len()
        invariant
            start <= i <= buf@.len(),
            out@ == buf@.subrange(start as int, i as int),
        decreases buf@.len() - i,
    {
        out.push(buf[i]);
        assert(buf@.subrange(start as int, i + 1) =~= buf@.subrange(start as int, i as int).push(
            buf@[i as int],
        ));
        i = i + 1;
    }
    out
}

/// Text as bytes.
pub open spec fn text_bytes(text: String) -> Seq<u8> {
    utf8::encode_utf8(text@)
}

impl PayloadEnvelope {
    /// The names fit their fields.
    pub open spec fn fits(self) -> bool {
        &&& text_bytes(self.filename).len() <= MAX_FILENAME_BYTES
        &&& text_bytes(self.callsign).len() <= MAX_CALLSIGN_BYTES
    }

    /// Length of the envelope on the wire.
    pub open spec fn spec_len(self) -> nat {
        3 + text_bytes(self.filename).len() + text_bytes(self.callsign).len() + self.content@.len()
    }

    /// The envelope on the wire.
    pub open spec fn spec_bytes(self) -> Seq<u8> {
        seq![self.version, text_bytes(self.filename).len() as u8] + text_bytes(self.filename)
            + seq![text_bytes(self.callsign).len() as u8] + text_bytes(self.callsign)
            + self.content@
    }

    /// Create an envelope; `None` where a name is too long or holds a NUL.
    pub fn new(filename: &str, callsign: &str, content: Vec<u8>) -> (env: Option<Self>)
        ensures
            env is Some <==> {
                &&& utf8::encode_utf8(filename@).len() <= MAX_FILENAME_BYTES
                &&& utf8::encode_utf8(callsign@).len() <= MAX_CALLSIGN_BYTES
                &&& !utf8::encode_utf8(filename@).contains(0u8)
                &&& !utf8::encode_utf8(callsign@).contains(0u8)
            },
            env matches Some(e) ==> {
                &&& e.fits()
                &&& e.version == ENVELOPE_VERSION
                &&& e.filename@ == filename@
                &&& e.callsign@ == callsign@
                &&& e.content@ == content@
            },
    {
        let name = filename.as_bytes();
        let call = callsign.as_bytes();
        if name.len() > MAX_FILENAME_BYTES {
            return None;
        }
        if call.len() > MAX_CALLSIGN_BYTES {
            return None;
        }
        if has_zero(name) || has_zero(call) {
            return None;
        }
        Some(
            PayloadEnvelope {
                version: ENVELOPE_VERSION,
                filename: filename.to_owned(),
                callsign: callsign.to_owned(),
                content,
            },
        )
    }

    /// Length of the envelope on the wire.
    pub fn encoded_len(&self) -> (len: usize)
        requires
            self.spec_len() <= usize::MAX,
        ensures
            len == self.spec_len(),
    {
        let name = self.filename.as_str().as_bytes();
        let call = self.callsign.as_str().as_bytes();
        MIN_ENVELOPE_HEADER + name.len() + call.len() + self.content.len()
    }

    /// Serialize the envelope.
    pub fn encode(&self) -> (out: Vec<u8>)
        requires
            self.fits(),
        ensures
            out@ == self.spec_bytes(),
            out@.len() == self.spec_len(),
    {
        let name = self.filename.as_str().as_bytes();
        let call = self.callsign.as_str().as_bytes();
        let mut out: Vec<u8> = Vec::new();
        out.push(self.version);
        out.push(name.len() as u8);
        out.extend_from_slice(name);
        out.push(call.len() as u8);
        out.extend_from_slice(call);
        out.extend_from_slice(self.content.as_slice());
        assert(out@ =~= self.spec_bytes());
        out
    }

    /// Read an envelope.
    pub fn decode(buf: &[u8]) -> (env: Result<Self, EnvelopeError>)
        ensures
            is_reading(env, buf@),
    {
        if buf.len() < MIN_ENVELOPE_HEADER {
            return Err(EnvelopeError::TooShort);
        }
        let version: u8 = buf[0];
        if version != ENVELOPE_VERSION {
            return Err(EnvelopeError::UnsupportedVersion(version));
        }
        let len_name: usize = buf[1] as usize;
        if len_name > MAX_FILENAME_BYTES {
            return Err(EnvelopeError::FilenameTooLong(len_name));
        }
        let end_name: usize = 2 + len_name;
        if buf.len() < end_name + 1 {
            return Err(EnvelopeError::TruncatedHeader);
        }
        let filename = match to_text(slice_subrange(buf, 2, end_name)) {
            Some(text) => text,
            None => {
                return Err(EnvelopeError::FilenameInvalidUtf8);
            },
        };
        let len_call: usize = buf[end_name] as usize;
        if len_call > MAX_CALLSIGN_BYTES {
            return Err(EnvelopeError::CallsignTooLong(len_call));
        }
        let start_call: usize = end_name + 1;
        let end_call: usize = start_call + len_call;
        if buf.len() < end_call {
            return Err(EnvelopeError::TruncatedHeader);
        }
        let callsign = to_lossy_text(slice_subrange(buf, start_call, end_call));
        let content = copy_from(buf, end_call);
        Ok(PayloadEnvelope { version, filename, callsign, content })
    }

    /// Read an envelope; where there is none, take all bytes as content of an
    /// envelope of version 0 without names.
    pub fn decode_or_fallback(buf: &[u8]) -> (env: Self)
        ensures
            env.version == if fault_of(buf@) is None {
                ENVELOPE_VERSION
            } else {
                0
            },
            env.filename@ == name_of(buf@),
            env.callsign@ == callsign_of(buf@),
            env.content@ == content_of(buf@),
            fault_of(buf@) is None ==> holds(env, buf@),
    {
        match Self::decode(buf) {
            Ok(env) => env,
            Err(_) => {
                let content = copy_from(buf, 0);
                assert(content@ =~= buf@);
                PayloadEnvelope {
                    version: 0,
                    filename: String::new(),
                    callsign: String::new(),
                    content,
                }
            },
        }
    }
}

/// The parts of a written envelope are found again.
pub proof fn lemma_written_envelope_is_read(env: PayloadEnvelope)
    requires
        env.fits(),
        env.version == ENVELOPE_VERSION,
    ensures
        fault_of(env.spec_bytes()) is None,
        name_of(env.spec_bytes()) == env.filename@,
        callsign_of(env.spec_bytes()) == env.callsign@,
        content_of(env.spec_bytes()) == env.content@,
{
    let buf = env.spec_bytes();
    let name = text_bytes(env.filename);
    let call = text_bytes(env.callsign);
    assert(buf[0] == 1 && buf[1] == name.len());
    assert(name_bytes(buf) =~= name);
    assert(buf[name_end(buf)] == call.len());
    assert(call_bytes(buf) =~= call);
    assert(content_bytes(buf) =~= env.content@);
    utf8::encode_utf8_valid_utf8(env.filename@);
    utf8::encode_utf8_valid_utf8(env.callsign@);
    utf8::encode_utf8_decode_utf8(env.filename@);
    utf8::encode_utf8_decode_utf8(env.callsign@);
}

/// What was written is read back: reading the bytes of an envelope of the current
/// version gives an envelope with the same names and content.
pub proof fn law_envelope_round_trip(
    env: PayloadEnvelope,
    read: Result<PayloadEnvelope, EnvelopeError>,
)
    requires
        env.fits(),
        env.version == ENVELOPE_VERSION,
        is_reading(read, env.spec_bytes()),
    ensures
        read matches Ok(r) && {
            &&& r.version == env.version
            &&& r.filename@ == env.filename@
            &&& r.callsign@ == env.callsign@
            &&& r.content@ == env.content@
        },
{
    let buf = env.spec_bytes();
    let name = text_bytes(env.filename);
    let call = text_bytes(env.callsign);
    assert(buf[0] == 1 && buf[1] == name.len());
    assert(name_bytes(buf) =~= name);
    assert(buf[name_end(buf)] == call.len());
    assert(call_bytes(buf) =~= call);
    assert(content_bytes(buf) =~= env.content@);
    utf8::encode_utf8_valid_utf8(env.filename@);
    utf8::encode_utf8_valid_utf8(env.callsign@);
    utf8::encode_utf8_decode_utf8(env.filename@);
    utf8::encode_utf8_decode_utf8(env.callsign@);
}

/// What was read is written back: an envelope that was read out of some bytes gives the
/// same bytes again, unless its callsign was no UTF-8 and had characters replaced.
pub proof fn law_bytes_round_trip(buf: Seq<u8>, read: Result<PayloadEnvelope, EnvelopeError>)
    requires
        is_reading(read, buf),
        read is Ok,
        utf8::valid_utf8(call_bytes(buf)),
    ensures
        read->Ok_0.fits(),
        read->Ok_0.spec_bytes() == buf,
{
    let env = read->Ok_0;
    utf8::decode_utf8_encode_utf8(name_bytes(buf));
    utf8::decode_utf8_encode_utf8(call_bytes(buf));
    let name = text_bytes(env.filename);
    let call = text_bytes(env.callsign);
    assert(name == name_bytes(buf) && call == call_bytes(buf));
    assert(name.len() == buf[1] && call.len() == buf[name_end(buf)]);
    assert(env.spec_bytes() =~= buf);
}

/// Bytes that are no envelope are taken as they are, without names.
pub proof fn law_other_bytes_are_content(buf: Seq<u8>, e: EnvelopeError)
    requires
        is_reading(Err(e), buf),
    ensures
        content_of(buf) == buf,
        name_of(buf).len() == 0,
        callsign_of(buf).len() == 0,
{
}

/// Bytes are refused for the first thing that is wrong with them, from the front.
pub proof fn law_first_fault_is_told(buf: Seq<u8>, read: Result<PayloadEnvelope, EnvelopeError>)
    requires
        is_reading(read, buf),
    ensures
        buf.len() < 3 <==> read == Err::<PayloadEnvelope, EnvelopeError>(EnvelopeError::TooShort),
        buf.len() >= 3 && buf[0] != 1 ==> read == Err::<PayloadEnvelope, EnvelopeError>(
            EnvelopeError::UnsupportedVersion(buf[0]),
        ),
        buf.len() >= 3 && buf[0] == 1 && buf[1] > 64 ==> read == Err::<
            PayloadEnvelope,
            EnvelopeError,
        >(EnvelopeError::FilenameTooLong(buf[1] as usize)),
        buf.len() >= 3 && buf[0] == 1 && buf[1] <= 64 && buf.len() < 3 + buf[1] ==> read == Err::<
            PayloadEnvelope,
            EnvelopeError,
        >(EnvelopeError::TruncatedHeader),
        read is Ok ==> buf.len() >= 3 + buf[1] + buf[2 + buf[1]] && buf[2 + buf[1]] <= 10,
{
}

/// The length of an envelope is that of its bytes: three bytes more than its names and its
/// content.
pub proof fn law_length_is_that_of_the_bytes(env: PayloadEnvelope)
    ensures
        env.spec_len() == env.spec_bytes().len(),
        env.spec_len() - text_bytes(env.filename).len() - text_bytes(env.callsign).len()
            - env.content@.len() == 3,
{
}

/// On the wire an envelope is its version, the length of its file name, the file name, the
/// length of its callsign, the callsign and the content.
pub proof fn law_envelope_layout(env: PayloadEnvelope, i: int)
    requires
        env.fits(),
    ensures
        ({
            let b = env.spec_bytes();
            let name = text_bytes(env.filename);
            let call = text_bytes(env.callsign);
            let n = name.len() as int;
            let m = call.len() as int;
            &&& b[0] == env.version
            &&& b[1] == n
            &&& 0 <= i < n ==> b[2 + i] == name[i]
            &&& b[2 + n] == m
            &&& 0 <= i < m ==> b[3 + n + i] == call[i]
            &&& 0 <= i < env.content@.len() ==> b[3 + n + m + i] == env.content@[i]
        }),
{
}

} // verus!
