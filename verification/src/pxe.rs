//! Network-boot negotiation logic: validation of the firmware-resident API
//! presence and entry-point records (signature, declared length, zero byte-sum
//! checksum), the presence-check response test, server-address extraction from
//! the cached negotiation packet, and filename preparation for the size and
//! download requests. The firmware calls themselves happen outside this
//! library; every decision about their inputs and outputs is made here.

use vstd::arithmetic::div_mod::{lemma_add_mod_noop, lemma_small_mod};
use vstd::prelude::*;

verus! {

/// Size of the API presence record.
pub const PXENV_RECORD_SIZE: usize = 0x2c;

/// Size of the API entry-point record.
pub const PXE_RECORD_SIZE: usize = 0x58;

/// Response code the presence check must return in the accumulator register.
pub const PXE_PRESENT_CODE: u32 = 0x564e;

/// Room for a requested filename, terminator included.
pub const FILENAME_BUFFER_SIZE: usize = 128;

/// Offset of the server address inside the cached negotiation packet.
pub const SERVER_IP_OFF: usize = 0x14;

/// The sum of all bytes of `s`, as an unbounded integer.
pub open spec fn byte_sum(s: Seq<u8>) -> int
    decreases s.len(),
{
    if s.len() == 0 {
        0
    } else {
        byte_sum(s.drop_last()) + s.last()
    }
}

/// The 16-bit little-endian value at `off`.
pub open spec fn word_at(s: Seq<u8>, off: int) -> int {
    s[off] + 0x100 * s[off + 1]
}

/// The API presence record is intact: the 6-byte signature, the declared
/// length equal to the record's fixed size, and a byte-sum checksum of zero
/// over the whole record.
pub open spec fn pxenv_valid(s: Seq<u8>) -> bool {
    &&& s.len() == PXENV_RECORD_SIZE
    &&& s[0] == 0x50 && s[1] == 0x58 && s[2] == 0x45  // "PXE"
    &&& s[3] == 0x4e && s[4] == 0x56 && s[5] == 0x2b  // "NV+"
    &&& s[8] == PXENV_RECORD_SIZE
    &&& byte_sum(s) % 256 == 0
}

/// The API entry-point record is intact: the 4-byte signature, the declared
/// length equal to the record's fixed size, and a byte-sum checksum of zero
/// over the whole record.
pub open spec fn pxe_valid(s: Seq<u8>) -> bool {
    &&& s.len() == PXE_RECORD_SIZE
    &&& s[0] == 0x21 && s[1] == 0x50 && s[2] == 0x58 && s[3] == 0x45  // "!PXE"
    &&& s[4] == PXE_RECORD_SIZE
    &&& byte_sum(s) % 256 == 0
}

/// Convert a 16-bit segment:offset pointer into a linear address.
pub fn segoff_to_linear(seg: u16, off: u16) -> (r: usize)
    ensures
        r == seg * 16 + off,
{
    (seg as usize) * 16 + off as usize
}

/// Did the firmware's presence check report the network-boot API? It did
/// exactly when it returned the expected response code and left the error
/// (carry) flag clear.
pub fn pxe_api_present(eax: u32, efl: u32) -> (r: bool)
    ensures
        r == (eax == PXE_PRESENT_CODE && efl % 2 == 0),
{
    eax == PXE_PRESENT_CODE && efl % 2 == 0
}

/// The wrapping byte-sum of `b`: the low 8 bits of the sum of all its bytes.
pub fn checksum(b: &[u8]) -> (r: u8)
    ensures
        r == byte_sum(b@) % 256,
{
    let n = b.len();
    let mut acc: u8 = 0;
    let mut i: usize = 0;
    while i < n
        invariant
            n == b@.len(),
            i <= n,
            acc == byte_sum(b@.take(i as int)) % 256,
        decreases n - i,
    {
        let x = b[i];
        proof {
            let pre = b@.take(i as int);
            let post = b@.take(i + 1 as int);
            assert(post.drop_last() == pre);
            assert(post.last() == b@[i as int]);
            lemma_add_mod_noop(byte_sum(pre), x as int, 256);
            lemma_small_mod(x as nat, 256);
        }
        acc = ((acc as u32 + x as u32) % 256) as u8;
        i += 1;
    }
    proof {
        assert(b@.take(n as int) == b@);
    }
    acc
}

/// Validate the API presence record and extract the segment:offset pointer to
/// the entry-point record. Returns `Some((segment, offset))` exactly when the
/// record is intact per [`pxenv_valid`].
pub fn validate_pxenv(pxenv: &[u8]) -> (r: Option<(u16, u16)>)
    ensures
        r is Some <==> pxenv_valid(pxenv@),
        r matches Some((seg, off)) ==> {
            &&& seg == word_at(pxenv@, 0x2a)
            &&& off == word_at(pxenv@, 0x28)
        },
{
    if pxenv.len() != PXENV_RECORD_SIZE {
        return None;
    }
    if pxenv[0] != 0x50 || pxenv[1] != 0x58 || pxenv[2] != 0x45 || pxenv[3] != 0x4e
        || pxenv[4] != 0x56 || pxenv[5] != 0x2b {
        return None;
    }
    if pxenv[8] != PXENV_RECORD_SIZE as u8 {
        return None;
    }
    if checksum(pxenv) != 0 {
        return None;
    }
    let off = read_word(pxenv, 0x28);
    let seg = read_word(pxenv, 0x2a);
    Some((seg, off))
}

/// Validate the API entry-point record and extract the segment:offset of the
/// callable entry point. Returns `Some((segment, offset))` exactly when the
/// record is intact per [`pxe_valid`] and the code segment is non-zero — a
/// zero code segment makes the record unusable.
pub fn validate_pxe(pxe: &[u8]) -> (r: Option<(u16, u16)>)
    ensures
        r is Some <==> pxe_valid(pxe@) && word_at(pxe@, 0x12) != 0,
        r matches Some((seg, off)) ==> {
            &&& seg == word_at(pxe@, 0x12)
            &&& off == word_at(pxe@, 0x10)
        },
{
    if pxe.len() != PXE_RECORD_SIZE {
        return None;
    }
    if pxe[0] != 0x21 || pxe[1] != 0x50 || pxe[2] != 0x58 || pxe[3] != 0x45 {
        return None;
    }
    if pxe[4] != PXE_RECORD_SIZE as u8 {
        return None;
    }
    if checksum(pxe) != 0 {
        return None;
    }
    let ep_off = read_word(pxe, 0x10);
    let ep_seg = read_word(pxe, 0x12);
    if ep_seg == 0 {
        return None;
    }
    Some((ep_seg, ep_off))
}

/// Extract the boot server's address from the cached negotiation packet. The
/// firmware reports failure in the status field; any non-zero status, or a
/// packet too short to hold the address field, yields nothing.
pub fn extract_server_ip(status: u16, pkt: &[u8]) -> (r: Option<[u8; 4]>)
    ensures
        r is Some <==> status == 0 && pkt@.len() >= SERVER_IP_OFF + 4,
        r matches Some(ip) ==> {
            &&& ip[0] == pkt@[SERVER_IP_OFF as int]
            &&& ip[1] == pkt@[SERVER_IP_OFF + 1]
            &&& ip[2] == pkt@[SERVER_IP_OFF + 2]
            &&& ip[3] == pkt@[SERVER_IP_OFF + 3]
        },
{
    if status != 0 {
        return None;
    }
    if pkt.len() < SERVER_IP_OFF + 4 {
        return None;
    }
    Some([pkt[SERVER_IP_OFF], pkt[SERVER_IP_OFF + 1], pkt[SERVER_IP_OFF + 2], pkt[SERVER_IP_OFF
        + 3]])
}

/// Lay a requested filename out in the fixed buffer the size and download
/// requests use, zero-filled past its end. A name that does not fit together
/// with its terminator is rejected before any firmware call would be made.
pub fn prepare_filename(filename: &[u8]) -> (r: Option<Vec<u8>>)
    ensures
        r is Some <==> filename@.len() + 1 <= FILENAME_BUFFER_SIZE,
        r matches Some(buf) ==> {
            &&& buf@.len() == FILENAME_BUFFER_SIZE
            &&& forall|i: int| 0 <= i < filename@.len() ==> buf@[i] == filename@[i]
            &&& forall|i: int| filename@.len() <= i < FILENAME_BUFFER_SIZE ==> buf@[i] == 0
        },
{
    let n = filename.len();
    if n >= FILENAME_BUFFER_SIZE {
        return None;
    }
    let mut buf: Vec<u8> = Vec::new();
    let mut i: usize = 0;
    while i < n
        invariant
            n == filename@.len(),
            n < FILENAME_BUFFER_SIZE,
            i <= n,
            buf@.len() == i,
            forall|j: int| 0 <= j < i ==> buf@[j] == filename@[j],
        decreases n - i,
    {
        buf.push(filename[i]);
        i += 1;
    }
    let mut j: usize = n;
    while j < FILENAME_BUFFER_SIZE
        invariant
            n == filename@.len(),
            n <= j <= FILENAME_BUFFER_SIZE,
            buf@.len() == j,
            forall|k: int| 0 <= k < n ==> buf@[k] == filename@[k],
            forall|k: int| n <= k < j ==> buf@[k] == 0,
        decreases FILENAME_BUFFER_SIZE - j,
    {
        buf.push(0);
        j += 1;
    }
    Some(buf)
}

/// Where the negotiation stands. Every validation failure short-circuits to
/// `Failed`, which carries no partial result: a step either fully succeeds or
/// the whole negotiation aborts, and the caller may only retry from `Start`.
pub enum NegotiationState {
    /// Nothing has been asked of the firmware yet.
    Start,
    /// The presence check succeeded; the presence record sits at this
    /// segment:offset.
    ApiPresent { pxenv_seg: u16, pxenv_off: u16 },
    /// The presence record validated; the entry-point record sits at this
    /// segment:offset.
    RecordValidated { pxe_seg: u16, pxe_off: u16 },
    /// The entry-point record validated; the API is callable at this
    /// segment:offset.
    EntryKnown { ep_seg: u16, ep_off: u16 },
    /// The cached negotiation data yielded the boot server's address.
    ServerDiscovered { ep_seg: u16, ep_off: u16, server_ip: [u8; 4] },
    /// The size query answered for the requested file.
    SizeKnown { ep_seg: u16, ep_off: u16, server_ip: [u8; 4], file_size: u32 },
    /// The file's bytes arrived.
    Downloaded,
    /// Some step failed; no partial result is kept.
    Failed,
}

/// What the firmware answered to the step just performed. The caller performs
/// the call that the current state asks for and hands the response back.
pub enum FirmwareEvent {
    /// Registers after the presence-check interrupt: the accumulator, the
    /// flags, and the segment:offset pointing at the presence record.
    PresenceResponse { eax: u32, efl: u32, es: u16, bx: u16 },
    /// The presence record's bytes, read at the address the previous state
    /// named.
    PresenceRecord { bytes: Vec<u8> },
    /// The entry-point record's bytes, read at the address the previous state
    /// named.
    EntryRecord { bytes: Vec<u8> },
    /// Status field and packet from the cached-negotiation-data call.
    CachedInfoResponse { status: u16, packet: Vec<u8> },
    /// Status and reported size from the file-size query.
    SizeResponse { status: u16, file_size: u32 },
    /// Status from the download call.
    DownloadResponse { status: u16 },
}

/// Advance the negotiation by one step: from the current state and the
/// firmware's response to the next state. Each response is checked before any
/// of its fields is trusted; any mismatch, and a response to a step the state
/// machine did not ask for, is a failure.
pub fn negotiate_step(state: NegotiationState, event: FirmwareEvent) -> (r: NegotiationState)
    ensures
        r == spec_negotiate_step(state, event),
{
    match (state, event) {
        (NegotiationState::Start, FirmwareEvent::PresenceResponse { eax, efl, es, bx }) => {
            if pxe_api_present(eax, efl) {
                NegotiationState::ApiPresent { pxenv_seg: es, pxenv_off: bx }
            } else {
                NegotiationState::Failed
            }
        },
        (
            NegotiationState::ApiPresent { .. },
            FirmwareEvent::PresenceRecord { bytes },
        ) => {
            match validate_pxenv(bytes.as_slice()) {
                Some((seg, off)) => NegotiationState::RecordValidated {
                    pxe_seg: seg,
                    pxe_off: off,
                },
                None => NegotiationState::Failed,
            }
        },
        (
            NegotiationState::RecordValidated { .. },
            FirmwareEvent::EntryRecord { bytes },
        ) => {
            match validate_pxe(bytes.as_slice()) {
                Some((seg, off)) => NegotiationState::EntryKnown { ep_seg: seg, ep_off: off },
                None => NegotiationState::Failed,
            }
        },
        (
            NegotiationState::EntryKnown { ep_seg, ep_off },
            FirmwareEvent::CachedInfoResponse { status, packet },
        ) => {
            match extract_server_ip(status, packet.as_slice()) {
                Some(ip) => {
                    proof {
                        broadcast use vstd::array::axiom_array_ext_equal;

                        assert(ip =~= [
                            packet@[SERVER_IP_OFF as int],
                            packet@[SERVER_IP_OFF + 1],
                            packet@[SERVER_IP_OFF + 2],
                            packet@[SERVER_IP_OFF + 3],
                        ]);
                    }
                    NegotiationState::ServerDiscovered { ep_seg, ep_off, server_ip: ip }
                },
                None => NegotiationState::Failed,
            }
        },
        (
            NegotiationState::ServerDiscovered { ep_seg, ep_off, server_ip },
            FirmwareEvent::SizeResponse { status, file_size },
        ) => {
            if status == 0 {
                NegotiationState::SizeKnown { ep_seg, ep_off, server_ip, file_size }
            } else {
                NegotiationState::Failed
            }
        },
        (
            NegotiationState::SizeKnown { .. },
            FirmwareEvent::DownloadResponse { status },
        ) => {
            if status == 0 {
                NegotiationState::Downloaded
            } else {
                NegotiationState::Failed
            }
        },
        _ => NegotiationState::Failed,
    }
}

/// The transition relation of [`negotiate_step`], written over the record
/// validity predicates: what the next state is for every state and response.
pub open spec fn spec_negotiate_step(
    state: NegotiationState,
    event: FirmwareEvent,
) -> NegotiationState {
    match (state, event) {
        (NegotiationState::Start, FirmwareEvent::PresenceResponse { eax, efl, es, bx }) => {
            if eax == PXE_PRESENT_CODE && efl % 2 == 0 {
                NegotiationState::ApiPresent { pxenv_seg: es, pxenv_off: bx }
            } else {
                NegotiationState::Failed
            }
        },
        (NegotiationState::ApiPresent { .. }, FirmwareEvent::PresenceRecord { bytes }) => {
            if pxenv_valid(bytes@) {
                NegotiationState::RecordValidated {
                    pxe_seg: word_at(bytes@, 0x2a) as u16,
                    pxe_off: word_at(bytes@, 0x28) as u16,
                }
            } else {
                NegotiationState::Failed
            }
        },
        (NegotiationState::RecordValidated { .. }, FirmwareEvent::EntryRecord { bytes }) => {
            if pxe_valid(bytes@) && word_at(bytes@, 0x12) != 0 {
                NegotiationState::EntryKnown {
                    ep_seg: word_at(bytes@, 0x12) as u16,
                    ep_off: word_at(bytes@, 0x10) as u16,
                }
            } else {
                NegotiationState::Failed
            }
        },
        (
            NegotiationState::EntryKnown { ep_seg, ep_off },
            FirmwareEvent::CachedInfoResponse { status, packet },
        ) => {
            if status == 0 && packet@.len() >= SERVER_IP_OFF + 4 {
                NegotiationState::ServerDiscovered {
                    ep_seg,
                    ep_off,
                    server_ip: [
                        packet@[SERVER_IP_OFF as int],
                        packet@[SERVER_IP_OFF + 1],
                        packet@[SERVER_IP_OFF + 2],
                        packet@[SERVER_IP_OFF + 3],
                    ],
                }
            } else {
                NegotiationState::Failed
            }
        },
        (
            NegotiationState::ServerDiscovered { ep_seg, ep_off, server_ip },
            FirmwareEvent::SizeResponse { status, file_size },
        ) => {
            if status == 0 {
                NegotiationState::SizeKnown { ep_seg, ep_off, server_ip, file_size }
            } else {
                NegotiationState::Failed
            }
        },
        (NegotiationState::SizeKnown { .. }, FirmwareEvent::DownloadResponse { status }) => {
            if status == 0 {
                NegotiationState::Downloaded
            } else {
                NegotiationState::Failed
            }
        },
        _ => NegotiationState::Failed,
    }
}

/// The 16-bit little-endian value at `off`.
fn read_word(b: &[u8], off: usize) -> (r: u16)
    requires
        off + 2 <= b@.len(),
    ensures
        r == word_at(b@, off as int),
{
    let b0 = b[off];
    let b1 = b[off + 1];
    b0 as u16 + 0x100 * b1 as u16
}

/// Changing one byte changes the byte-sum by exactly the difference.
proof fn lemma_byte_sum_update(s: Seq<u8>, i: int, b: u8)
    requires
        0 <= i < s.len(),
    ensures
        byte_sum(s.update(i, b)) == byte_sum(s) - s[i] + b,
    decreases s.len(),
{
    let t = s.update(i, b);
    if i == s.len() - 1 {
        assert(t.drop_last() == s.drop_last());
        assert(t.last() == b);
    } else {
        assert(t.drop_last() == s.drop_last().update(i, b));
        assert(t.last() == s.last());
        lemma_byte_sum_update(s.drop_last(), i, b);
    }
}

/// A zero byte-sum survives a change whose total difference is a multiple of
/// 256.
proof fn lemma_sum_mod_stays(su: int, d: int)
    requires
        su % 256 == 0,
        d % 256 == 0,
    ensures
        (su + d) % 256 == 0,
{
    lemma_add_mod_noop(su, d, 256);
}

/// A zero byte-sum cannot survive a change whose total difference is a small
/// non-zero amount.
proof fn lemma_sum_mod_breaks(su: int, d: int)
    requires
        su % 256 == 0,
        -256 < d < 256,
        d != 0,
    ensures
        (su + d) % 256 != 0,
{
    lemma_add_mod_noop(su, d, 256);
    if d > 0 {
        lemma_small_mod(d as nat, 256);
    } else {
        assert(d % 256 == d + 256);
    }
}

/// Tampering is always caught: flipping any single byte of an intact API
/// presence record — signature, checksum region, anywhere — makes the record
/// rejected.
pub proof fn lemma_pxenv_single_flip_rejected(s: Seq<u8>, i: int, b: u8)
    requires
        pxenv_valid(s),
        0 <= i < s.len(),
        b != s[i],
    ensures
        !pxenv_valid(s.update(i, b)),
{
    lemma_byte_sum_update(s, i, b);
    lemma_sum_mod_breaks(byte_sum(s), b - s[i]);
}

/// Tampering is always caught: flipping any single byte of an intact API
/// entry-point record makes the record rejected.
pub proof fn lemma_pxe_single_flip_rejected(s: Seq<u8>, i: int, b: u8)
    requires
        pxe_valid(s),
        0 <= i < s.len(),
        b != s[i],
    ensures
        !pxe_valid(s.update(i, b)),
{
    lemma_byte_sum_update(s, i, b);
    lemma_sum_mod_breaks(byte_sum(s), b - s[i]);
}

/// A change outside the signature and length fields is accepted again once a
/// designated byte restores the checksum: after writing `b` at `i` and the
/// compensating value `c` at `j`, the presence record is intact again.
pub proof fn lemma_pxenv_compensated_accepted(s: Seq<u8>, i: int, b: u8, j: int, c: u8)
    requires
        pxenv_valid(s),
        6 <= i < s.len(),
        6 <= j < s.len(),
        i != 8 && j != 8,
        i != j,
        (b - s[i] + c - s[j]) % 256 == 0,
    ensures
        pxenv_valid(s.update(i, b).update(j, c)),
{
    let t = s.update(i, b);
    lemma_byte_sum_update(s, i, b);
    lemma_byte_sum_update(t, j, c);
    assert(t[j] == s[j]);
    lemma_sum_mod_stays(byte_sum(s), b - s[i] + c - s[j]);
}

/// The same restoration law for the entry-point record.
pub proof fn lemma_pxe_compensated_accepted(s: Seq<u8>, i: int, b: u8, j: int, c: u8)
    requires
        pxe_valid(s),
        5 <= i < s.len(),
        5 <= j < s.len(),
        i != j,
        (b - s[i] + c - s[j]) % 256 == 0,
    ensures
        pxe_valid(s.update(i, b).update(j, c)),
{
    let t = s.update(i, b);
    lemma_byte_sum_update(s, i, b);
    lemma_byte_sum_update(t, j, c);
    assert(t[j] == s[j]);
    lemma_sum_mod_stays(byte_sum(s), b - s[i] + c - s[j]);
}

} // verus!
