//! The bytes of echo requests: layout, payload and checksum.

use vstd::prelude::*;

verus! {

/// Size of the data that follows the header of an echo request.
pub const ICMP_PAYLOAD_SIZE: usize = 32;

/// Size of an echo request: an 8-byte header and the payload.
pub const ICMP_PACKET_SIZE: usize = 40;

// ---------------------------------------------------------------------------------------------
// Checksum
// ---------------------------------------------------------------------------------------------

/// The 16-bit big-endian number with the bytes `hi` and `lo`.
pub open spec fn be16(hi: u8, lo: u8) -> u16 {
    (hi * 256 + lo) as u16
}

/// The high byte of a 16-bit number.
pub open spec fn high_byte(n: u16) -> u8 {
    (n / 256) as u8
}

/// The low byte of a 16-bit number.
pub open spec fn low_byte(n: u16) -> u8 {
    (n % 256) as u8
}

/// The sum of the 16-bit big-endian words of `s`, the last one padded with a zero byte where
/// the length is odd.
pub open spec fn word_sum(s: Seq<u8>) -> nat
    decreases s.len(),
{
    if s.len() == 0 {
        0
    } else if s.len() == 1 {
        (s[0] * 256) as nat
    } else {
        be16(s[0], s[1]) as nat + word_sum(s.skip(2))
    }
}

/// `n` reduced to 16 bits by adding the carries back in: the one's complement sum. It is
/// congruent to `n` modulo 0xFFFF, and zero only for zero.
pub open spec fn fold16(n: nat) -> nat {
    if n == 0 {
        0
    } else {
        ((n - 1) % 0xFFFF + 1) as nat
    }
}

/// The Internet checksum of `s`: the one's complement of the one's complement sum of its words.
pub open spec fn checksum(s: Seq<u8>) -> u16 {
    (0xFFFF - fold16(word_sum(s))) as u16
}

/// Adding the carries back in once does not change what the number folds to.
proof fn lemma_fold_step(n: nat)
    ensures
        fold16(n % 0x10000 + n / 0x10000) == fold16(n),
{
    let h = n / 0x10000;
    let l = n % 0x10000;
    assert(n == 0x10000 * h + l);
    if n > 0 {
        assert(h + l > 0);
        assert(n - 1 == (h + l - 1) + 0xFFFF * h);
        vstd::arithmetic::div_mod::lemma_mod_multiples_vanish(h as int, h + l - 1, 0xFFFF);
    }
}

/// A number of at most 16 bits folds to itself.
proof fn lemma_fold_small(n: nat)
    requires
        n <= 0xFFFF,
    ensures
        fold16(n) == n,
{
    if n > 0 {
        vstd::arithmetic::div_mod::lemma_small_mod((n - 1) as nat, 0xFFFF);
    }
}

/// Computes the Internet checksum of a packet.
pub fn calculate_checksum(packet: &[u8]) -> (r: u16)
    ensures
        r == checksum(packet@),
{
    let mut sum: u128 = 0;
    let mut i: usize = 0;
    let n: usize = packet.len();

    // Sum the 16-bit words
    proof {
        assert(packet@.skip(0) =~= packet@);
    }
    while i < n && n - i >= 2
        invariant
            n == packet@.len(),
            i <= n,
            sum <= i * 0xFFFF,
            sum + word_sum(packet@.skip(i as int)) == word_sum(packet@),
        decreases n - i,
    {
        let word: u16 = (packet[i] as u16) * 256 + (packet[i + 1] as u16);
        proof {
            let rest = packet@.skip(i as int);
            assert(rest[0] == packet@[i as int] && rest[1] == packet@[i + 1]);
            assert(rest.skip(2) =~= packet@.skip(i + 2));
        }
        sum = sum + word as u128;
        i = i + 2;
    }

    // An odd byte at the end is the high half of a word
    if i < n {
        proof {
            assert(packet@.skip(i as int).len() == 1);
        }
        sum = sum + (packet[i] as u128) * 256;
    } else {
        proof {
            assert(packet@.skip(i as int).len() == 0);
        }
    }

    // Add the carries back in
    while sum >> 16 != 0
        invariant
            fold16(sum as nat) == fold16(word_sum(packet@)),
        decreases sum,
    {
        proof {
            assert(sum & 0xFFFF == sum % 0x10000) by (bit_vector);
            assert(sum >> 16 == sum / 0x10000) by (bit_vector);
            lemma_fold_step(sum as nat);
        }
        sum = (sum & 0xFFFF) + (sum >> 16);
    }
    proof {
        assert(sum >> 16 == 0 ==> sum <= 0xFFFF) by (bit_vector);
        lemma_fold_small(sum as nat);
    }
    let folded: u16 = sum as u16;
    proof {
        assert(!folded == 0xFFFF - folded) by (bit_vector);
    }
    !folded
}

/// `s` with its checksum stored big-endian in bytes 2 and 3, the place of the checksum in an
/// ICMP header.
pub open spec fn with_checksum(s: Seq<u8>) -> Seq<u8> {
    s.update(2, high_byte(checksum(s))).update(3, low_byte(checksum(s)))
}

/// A stored checksum verifies: where the checksum bytes are zero, storing the checksum there
/// gives a packet whose own checksum is zero.
pub proof fn law_stored_checksum_verifies(s: Seq<u8>)
    requires
        s.len() >= 4,
        s[2] == 0,
        s[3] == 0,
    ensures
        checksum(with_checksum(s)) == 0,
{
    let c = checksum(s);
    let t = with_checksum(s);
    let w = word_sum(s);
    assert(s.skip(2).skip(2) =~= s.skip(4));
    assert(t.skip(2).skip(2) =~= s.skip(4));
    assert(word_sum(s) == be16(s[0], s[1]) + word_sum(s.skip(2)));
    assert(word_sum(t) == be16(s[0], s[1]) + word_sum(t.skip(2)));
    assert(word_sum(s.skip(2)) == word_sum(s.skip(4)));
    assert(word_sum(t.skip(2)) == c + word_sum(s.skip(4)));
    assert(word_sum(t) == w + c);
    if w == 0 {
        assert(fold16(0xFFFF) == 0xFFFF);
    } else {
        let k = (w - 1) / 0xFFFF;
        assert(w == 0xFFFF * k + fold16(w));
        assert(w + c - 1 == 0xFFFF * k + 0xFFFE);
        vstd::arithmetic::div_mod::lemma_mod_multiples_vanish(k, 0xFFFE, 0xFFFF);
        assert(fold16(w + c as nat) == 0xFFFF);
    }
}

// ---------------------------------------------------------------------------------------------
// Echo requests
// ---------------------------------------------------------------------------------------------

/// Byte `i` of the payload: the little-endian bytes of the timestamp, repeated.
pub open spec fn payload_byte(timestamp: u64, i: int) -> u8 {
    ((timestamp >> ((i % 8) * 8) as u64) & 0xFF) as u8
}

/// An echo request whose checksum bytes are still zero.
pub open spec fn unsummed_request(ident: u16, seq: u16, timestamp: u64) -> Seq<u8> {
    seq![
        8u8,
        0,
        0,
        0,
        high_byte(ident),
        low_byte(ident),
        high_byte(seq),
        low_byte(seq),
    ] + Seq::new(ICMP_PAYLOAD_SIZE as nat, |i: int| payload_byte(timestamp, i))
}

/// The echo request with the given identifier, sequence number and payload timestamp:
/// `[type 8][code 0][checksum:2][ident:2][seq:2][data:32]`.
pub open spec fn echo_request(ident: u16, seq: u16, timestamp: u64) -> Seq<u8> {
    with_checksum(unsummed_request(ident, seq, timestamp))
}

/// The payload timestamp for a wall clock reading: the low 64 bits of the nanoseconds since the
/// Unix epoch, zero before it.
pub open spec fn payload_timestamp(since_epoch: Option<u128>) -> u64 {
    match since_epoch {
        Some(nanos) => nanos as u64,
        None => 0,
    }
}

/// Computes the payload timestamp for a wall clock reading.
pub fn stamp(since_epoch: Option<u128>) -> (r: u64)
    ensures
        r == payload_timestamp(since_epoch),
{
    match since_epoch {
        Some(nanos) => nanos as u64,
        None => 0,
    }
}

/// Builds the echo request for a given payload timestamp.
pub fn encode_echo_request(ident: u16, seq: u16, timestamp: u64) -> (r: Vec<u8>)
    ensures
        r@ == echo_request(ident, seq, timestamp),
{
    let mut packet: Vec<u8> = Vec::with_capacity(ICMP_PACKET_SIZE);
    packet.push(8);
    packet.push(0);
    // Checksum, filled in below
    packet.push(0);
    packet.push(0);
    packet.push((ident / 256) as u8);
    packet.push((ident % 256) as u8);
    packet.push((seq / 256) as u8);
    packet.push((seq % 256) as u8);
    let mut i: usize = 0;
    while i < ICMP_PAYLOAD_SIZE
        invariant
            i <= ICMP_PAYLOAD_SIZE,
            packet@.len() == 8 + i,
            packet@.take(8) == unsummed_request(ident, seq, timestamp).take(8),
            forall|j: int| 0 <= j < i ==> packet@[8 + j] == payload_byte(timestamp, j),
        decreases ICMP_PAYLOAD_SIZE - i,
    {
        let shift: u64 = ((i % 8) * 8) as u64;
        let ghost before = packet@;
        packet.push(((timestamp >> shift) & 0xFF) as u8);
        proof {
            assert(packet@.take(8) =~= before.take(8));
        }
        i = i + 1;
    }
    proof {
        let want = unsummed_request(ident, seq, timestamp);
        assert forall|j: int| 0 <= j < 40 implies packet@[j] == want[j] by {
            if j < 8 {
                assert(packet@.take(8)[j] == want.take(8)[j]);
            } else {
                assert(packet@[8 + (j - 8)] == payload_byte(timestamp, j - 8));
            }
        }
        assert(packet@ =~= want);
    }
    let sum: u16 = calculate_checksum(packet.as_slice());
    packet.set(2, (sum / 256) as u8);
    packet.set(3, (sum % 256) as u8);
    packet
}

/// An echo request is 40 bytes long, carries its identifier and sequence number, and verifies:
/// its own checksum is zero.
pub proof fn law_echo_request_verifies(ident: u16, seq: u16, timestamp: u64)
    ensures
        echo_request(ident, seq, timestamp).len() == ICMP_PACKET_SIZE,
        echo_request(ident, seq, timestamp)[0] == 8,
        echo_request(ident, seq, timestamp)[1] == 0,
        be16(
            echo_request(ident, seq, timestamp)[4],
            echo_request(ident, seq, timestamp)[5],
        ) == ident,
        be16(echo_request(ident, seq, timestamp)[6], echo_request(ident, seq, timestamp)[7]) == seq,
        checksum(echo_request(ident, seq, timestamp)) == 0,
{
    law_stored_checksum_verifies(unsummed_request(ident, seq, timestamp));
}

// ---------------------------------------------------------------------------------------------
// Embedded packets
// ---------------------------------------------------------------------------------------------

/// Where the IP header of the packet that caused a response starts.
pub const EMBEDDED_IP_OFFSET: usize = 8;

/// The shortest IP header.
pub const MIN_IP_HEADER: usize = 20;

/// Where the embedded ICMP packet starts: after the embedded IP header, whose length in 32-bit
/// words is the low half of its first byte.
pub open spec fn embedded_offset(s: Seq<u8>) -> int {
    EMBEDDED_IP_OFFSET + (s[EMBEDDED_IP_OFFSET as int] % 16) * 4
}

/// Reads where the embedded ICMP packet starts.
pub fn read_embedded_offset(buffer: &[u8]) -> (r: usize)
    requires
        buffer@.len() >= EMBEDDED_IP_OFFSET + MIN_IP_HEADER,
    ensures
        r == embedded_offset(buffer@),
        r == 8 + 4 * (buffer@[8] % 16),
        r <= 68,
{
    EMBEDDED_IP_OFFSET + ((buffer[EMBEDDED_IP_OFFSET] % 16) as usize) * 4
}

/// Reads the 16-bit big-endian number at `at`.
pub fn read_be16(buffer: &[u8], at: usize) -> (r: u16)
    requires
        at + 1 < buffer@.len(),
    ensures
        r == be16(buffer@[at as int], buffer@[at + 1]),
        r == 256 * buffer@[at as int] + buffer@[at + 1],
{
    (buffer[at] as u16) * 256 + (buffer[at + 1] as u16)
}

// ---------------------------------------------------------------------------------------------
// Laws
// ---------------------------------------------------------------------------------------------

/// A 16-bit number is stored in two bytes, the high one first, and read back from them.
pub proof fn law_words_are_big_endian(n: u16, hi: u8, lo: u8)
    ensures
        be16(hi, lo) == 256 * hi + lo,
        256 * high_byte(n) + low_byte(n) == n,
        be16(high_byte(n), low_byte(n)) == n,
{
}

/// Word sums add up: where the first of two pieces has whole words, the sum of both together is
/// the sum of their sums. A word counts 256 times its first byte and its second byte; a byte left
/// over at the end counts as a first byte.
pub proof fn law_word_sums_add_up(a: Seq<u8>, b: Seq<u8>, x: u8, y: u8)
    requires
        a.len() % 2 == 0,
    ensures
        word_sum(Seq::<u8>::empty()) == 0,
        word_sum(seq![x]) == 256 * x,
        word_sum(seq![x, y]) == 256 * x + y,
        word_sum(a + b) == word_sum(a) + word_sum(b),
    decreases a.len(),
{
    let word = seq![x, y];
    assert(word.skip(2) =~= Seq::<u8>::empty());
    assert(word_sum(word) == be16(word[0], word[1]) + word_sum(word.skip(2)));
    if a.len() > 0 {
        law_word_sums_add_up(a.skip(2), b, x, y);
        assert((a + b).skip(2) =~= a.skip(2) + b);
    } else {
        assert(a + b =~= b);
    }
}

/// The checksum complements the sum of the words: together they are a multiple of 0xFFFF. It has
/// all bits set only where all words are zero.
pub proof fn law_checksum_complements_the_words(s: Seq<u8>)
    ensures
        (checksum(s) + word_sum(s)) % 0xFFFF == 0,
        checksum(s) == 0xFFFF <==> word_sum(s) == 0,
{
    let w = word_sum(s);
    if w > 0 {
        let k = (w - 1) / 0xFFFF;
        assert(w == 0xFFFF * k + fold16(w));
        assert(checksum(s) + w == 0xFFFF * (k + 1));
        vstd::arithmetic::div_mod::lemma_mod_multiples_basic(k + 1, 0xFFFF);
    }
}

/// What an echo request consists of: type 8, code 0, the checksum of all its other bytes, the
/// identifier, the sequence number, and the bytes of the timestamp, least significant first, four
/// times over.
pub proof fn law_echo_request_layout(ident: u16, seq: u16, timestamp: u64)
    ensures
        ({
            let r = echo_request(ident, seq, timestamp);
            &&& r.len() == 40
            &&& r[0] == 8 && r[1] == 0
            &&& 256 * r[4] + r[5] == ident
            &&& 256 * r[6] + r[7] == seq
            &&& 256 * r[2] + r[3] == checksum(r.update(2, 0).update(3, 0))
            &&& forall|g: int| #![trigger r[8 + 8 * g]]
                0 <= g < 4 ==> r[8 + 8 * g] + 0x100 * r[9 + 8 * g] + 0x1_0000 * r[10 + 8 * g]
                    + 0x100_0000 * r[11 + 8 * g] + 0x1_0000_0000 * r[12 + 8 * g]
                    + 0x100_0000_0000 * r[13 + 8 * g] + 0x1_0000_0000_0000 * r[14 + 8 * g]
                    + 0x100_0000_0000_0000 * r[15 + 8 * g] == timestamp
        }),
{
    let r = echo_request(ident, seq, timestamp);
    let before = unsummed_request(ident, seq, timestamp);
    assert(r.update(2, 0).update(3, 0) =~= before);
    let t = timestamp;
    assert(((t >> 0u64) & 0xFF) as u8 + 0x100 * (((t >> 8u64) & 0xFF) as u8) + 0x1_0000 * (((t
        >> 16u64) & 0xFF) as u8) + 0x100_0000 * (((t >> 24u64) & 0xFF) as u8) + 0x1_0000_0000 * (((t
        >> 32u64) & 0xFF) as u8) + 0x100_0000_0000 * (((t >> 40u64) & 0xFF) as u8)
        + 0x1_0000_0000_0000 * (((t >> 48u64) & 0xFF) as u8) + 0x100_0000_0000_0000 * (((t >> 56u64)
        & 0xFF) as u8) == t) by (bit_vector);
    assert forall|g: int| #![trigger r[8 + 8 * g]] 0 <= g < 4 implies r[8 + 8 * g] + 0x100 * r[9 + 8
        * g] + 0x1_0000 * r[10 + 8 * g] + 0x100_0000 * r[11 + 8 * g] + 0x1_0000_0000 * r[12 + 8 * g]
        + 0x100_0000_0000 * r[13 + 8 * g] + 0x1_0000_0000_0000 * r[14 + 8 * g]
        + 0x100_0000_0000_0000 * r[15 + 8 * g] == timestamp by {
        assert forall|j: int| 0 <= j < 8 implies #[trigger] r[8 + 8 * g + j] == payload_byte(
            timestamp,
            j,
        ) by {
            assert((8 * g + j) % 8 == j);
            assert(r[8 + 8 * g + j] == payload_byte(timestamp, 8 * g + j));
        }
        assert(r[8 + 8 * g + 0] == ((t >> 0u64) & 0xFF) as u8);
        assert(r[8 + 8 * g + 1] == ((t >> 8u64) & 0xFF) as u8);
        assert(r[8 + 8 * g + 2] == ((t >> 16u64) & 0xFF) as u8);
        assert(r[8 + 8 * g + 3] == ((t >> 24u64) & 0xFF) as u8);
        assert(r[8 + 8 * g + 4] == ((t >> 32u64) & 0xFF) as u8);
        assert(r[8 + 8 * g + 5] == ((t >> 40u64) & 0xFF) as u8);
        assert(r[8 + 8 * g + 6] == ((t >> 48u64) & 0xFF) as u8);
        assert(r[8 + 8 * g + 7] == ((t >> 56u64) & 0xFF) as u8);
    }
}

/// The timestamp of a probe is the wall clock reading without what does not fit 64 bits, and zero
/// before the epoch.
pub proof fn law_timestamp_is_the_reading(since_epoch: Option<u128>)
    ensures
        since_epoch is None ==> payload_timestamp(since_epoch) == 0,
        since_epoch matches Some(nanos) ==> payload_timestamp(since_epoch) == nanos
            % 0x1_0000_0000_0000_0000,
{
    if let Some(nanos) = since_epoch {
        assert(nanos as u64 == nanos % 0x1_0000_0000_0000_0000) by (bit_vector);
    }
}

} // verus!
