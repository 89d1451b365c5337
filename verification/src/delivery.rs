//! What is handed to the sink: audio as little-endian 16-bit samples, and
//! the event that carries one chunk of it as text.

use vstd::prelude::*;
use vstd::string::StringExecFns;

verus! {

/// The standard base64 text of `bytes`, with padding.
pub uninterp spec fn base64_standard(bytes: Seq<u8>) -> Seq<char>;

/// The base64 text of `len` bytes, four characters for every three bytes
/// begun, is no longer than the largest allocation.
pub open spec fn encodable(len: nat) -> bool {
    len / 3 < usize::MAX / 8
}

/// Calls `base64::Engine::encode` on the engine
/// `base64::engine::general_purpose::STANDARD`. The text depends on the
/// bytes alone and is known here only by its name, `base64_standard`. The
/// call panics where the length of the text cannot be computed or
/// allocated, which `encodable` rules out.
#[verifier::external_body]
fn encode_base64(bytes: &Vec<u8>) -> (text: String)
    requires
        encodable(bytes@.len()),
    ensures
        text@ == base64_standard(bytes@),
{
    base64::Engine::encode(&base64::engine::general_purpose::STANDARD, bytes)
}

/// The low byte of a sample.
pub open spec fn low_byte(sample: i16) -> u8 {
    (sample as u16 & 0xff) as u8
}

/// The high byte of a sample.
pub open spec fn high_byte(sample: i16) -> u8 {
    (sample as u16 >> 8) as u8
}

/// `samples` as bytes: each sample in two's complement, low byte first.
pub open spec fn pcm_le(samples: Seq<i16>) -> Seq<u8> {
    Seq::new(
        2 * samples.len(),
        |k: int|
            if k % 2 == 0 {
                low_byte(samples[k / 2])
            } else {
                high_byte(samples[k / 2])
            },
    )
}

/// The event that carries one chunk of audio to the sink.
pub struct ChunkEvent {
    /// The request that the chunk belongs to.
    pub request_id: String,
    /// The place of the chunk in the text.
    pub index: usize,
    /// The audio of the chunk as base64 text.
    pub chunk: String,
}

/// Whether a payload of `len` bytes can be carried by an event.
pub fn payload_fits(len: usize) -> (r: bool)
    ensures
        r == encodable(len as nat),
{
    len / 3 < usize::MAX / 8
}

/// The event for chunk `index` of request `request_id` with the audio
/// `payload`.
pub fn chunk_event(request_id: &str, index: usize, payload: &Vec<u8>) -> (event: ChunkEvent)
    requires
        encodable(payload@.len()),
    ensures
        event.request_id@ == request_id@,
        event.index == index,
        event.chunk@ == base64_standard(payload@),
{
    ChunkEvent {
        request_id: String::from_str(request_id),
        index,
        chunk: encode_base64(payload),
    }
}

/// Writes `samples` as little-endian 16-bit PCM.
pub fn pcm_bytes(samples: &Vec<i16>) -> (bytes: Vec<u8>)
    ensures
        bytes@ == pcm_le(samples@),
{
    let mut bytes: Vec<u8> = Vec::new();
    let mut i: usize = 0;
    while i < samples.len()
        invariant
            i <= samples.len(),
            bytes@.len() == 2 * i,
            forall|k: int|
                0 <= k < 2 * i ==> bytes@[k] == (if k % 2 == 0 {
                    low_byte(samples@[k / 2])
                } else {
                    high_byte(samples@[k / 2])
                }),
        decreases samples.len() - i,
    {
        let sample = samples[i];
        let wide: u16 = sample as u16;
        let low: u16 = wide & 0xff;
        let high: u16 = wide >> 8;
        assert(low <= 0xff && high <= 0xff) by (bit_vector)
            requires
                low == wide & 0xff,
                high == wide >> 8,
        ;
        bytes.push(low as u8);
        bytes.push(high as u8);
        i += 1;
    }
    assert(bytes@ =~= pcm_le(samples@));
    bytes
}

} // verus!
