//! Hybrid-clock timestamps and the log entries a replica digest summarises.

use crate::order::{
    compare_bytes, lemma_seq_lt_asymmetric, lemma_seq_lt_irreflexive, lemma_seq_lt_total,
    lemma_seq_lt_transitive, seq_lt,
};
use crate::text::{hexadecimal, push_hexadecimal};
use crate::trusted::{ntp64_nanos, ntp_nanos, rfc3339_bytes, rfc3339_text};
use vstd::prelude::*;
use vstd::utf8::{encode_utf8, encode_utf8_decode_utf8};

verus! {

/// A hybrid logical clock timestamp: an NTP64 time (seconds in the upper
/// 32 bits, fraction of a second in the lower 32) and the 128-bit
/// identifier of the clock that issued it.
#[derive(Clone, Copy, Debug, PartialEq, Eq, Hash)]
pub struct Timestamp {
    pub time: u64,
    pub id: u128,
}

/// One write in a replica's log: when it happened and on which key.
#[derive(Clone, Debug, PartialEq, Eq, Hash)]
pub struct LogEntry {
    pub timestamp: Timestamp,
    pub key: String,
}

/// The mathematical value of a log entry.
pub struct EntryView {
    pub time: u64,
    pub id: u128,
    pub key: Seq<char>,
}

impl View for LogEntry {
    type V = EntryView;

    open spec fn view(&self) -> EntryView {
        EntryView { time: self.timestamp.time, id: self.timestamp.id, key: self.key@ }
    }
}

/// Byte `k` (least significant first) of a clock identifier.
pub open spec fn id_byte(id: u128, k: int) -> u8 {
    ((id >> ((8 * k) as u128)) & 0xff) as u8
}

/// The little-endian bytes of a clock identifier; identifiers are ordered
/// by these bytes.
pub open spec fn id_bytes(id: u128) -> Seq<u8> {
    Seq::new(16, |k: int| id_byte(id, k))
}

/// Milliseconds since the UNIX epoch of an NTP64 time.
pub open spec fn millis_of(time: u64) -> int {
    ntp_nanos(time) / 1_000_000
}

/// Log order: by time, then by clock identifier, then by the key's bytes.
pub open spec fn entry_lt(a: EntryView, b: EntryView) -> bool {
    ||| a.time < b.time
    ||| a.time == b.time && seq_lt(id_bytes(a.id), id_bytes(b.id))
    ||| a.time == b.time && a.id == b.id && seq_lt(encode_utf8(a.key), encode_utf8(b.key))
}

/// The text that is hashed for an entry: `<RFC 3339 time>/<hex id>-<key>`.
pub open spec fn entry_text(e: EntryView) -> Seq<u8> {
    rfc3339_text(e.time) + seq![47u8] + hexadecimal(e.id as nat) + seq![45u8] + encode_utf8(e.key)
}

proof fn lemma_id_bytes_injective(a: u128, b: u128)
    requires
        id_bytes(a) == id_bytes(b),
    ensures
        a == b,
{
    assert(id_bytes(a)[0] == id_byte(a, 0) && id_bytes(b)[0] == id_byte(b, 0));
    assert(((a >> 0u128) & 0xff) as u8 == ((b >> 0u128) & 0xff) as u8);
    assert(id_bytes(a)[1] == id_byte(a, 1) && id_bytes(b)[1] == id_byte(b, 1));
    assert(((a >> 8u128) & 0xff) as u8 == ((b >> 8u128) & 0xff) as u8);
    assert(id_bytes(a)[2] == id_byte(a, 2) && id_bytes(b)[2] == id_byte(b, 2));
    assert(((a >> 16u128) & 0xff) as u8 == ((b >> 16u128) & 0xff) as u8);
    assert(id_bytes(a)[3] == id_byte(a, 3) && id_bytes(b)[3] == id_byte(b, 3));
    assert(((a >> 24u128) & 0xff) as u8 == ((b >> 24u128) & 0xff) as u8);
    assert(id_bytes(a)[4] == id_byte(a, 4) && id_bytes(b)[4] == id_byte(b, 4));
    assert(((a >> 32u128) & 0xff) as u8 == ((b >> 32u128) & 0xff) as u8);
    assert(id_bytes(a)[5] == id_byte(a, 5) && id_bytes(b)[5] == id_byte(b, 5));
    assert(((a >> 40u128) & 0xff) as u8 == ((b >> 40u128) & 0xff) as u8);
    assert(id_bytes(a)[6] == id_byte(a, 6) && id_bytes(b)[6] == id_byte(b, 6));
    assert(((a >> 48u128) & 0xff) as u8 == ((b >> 48u128) & 0xff) as u8);
    assert(id_bytes(a)[7] == id_byte(a, 7) && id_bytes(b)[7] == id_byte(b, 7));
    assert(((a >> 56u128) & 0xff) as u8 == ((b >> 56u128) & 0xff) as u8);
    assert(id_bytes(a)[8] == id_byte(a, 8) && id_bytes(b)[8] == id_byte(b, 8));
    assert(((a >> 64u128) & 0xff) as u8 == ((b >> 64u128) & 0xff) as u8);
    assert(id_bytes(a)[9] == id_byte(a, 9) && id_bytes(b)[9] == id_byte(b, 9));
    assert(((a >> 72u128) & 0xff) as u8 == ((b >> 72u128) & 0xff) as u8);
    assert(id_bytes(a)[10] == id_byte(a, 10) && id_bytes(b)[10] == id_byte(b, 10));
    assert(((a >> 80u128) & 0xff) as u8 == ((b >> 80u128) & 0xff) as u8);
    assert(id_bytes(a)[11] == id_byte(a, 11) && id_bytes(b)[11] == id_byte(b, 11));
    assert(((a >> 88u128) & 0xff) as u8 == ((b >> 88u128) & 0xff) as u8);
    assert(id_bytes(a)[12] == id_byte(a, 12) && id_bytes(b)[12] == id_byte(b, 12));
    assert(((a >> 96u128) & 0xff) as u8 == ((b >> 96u128) & 0xff) as u8);
    assert(id_bytes(a)[13] == id_byte(a, 13) && id_bytes(b)[13] == id_byte(b, 13));
    assert(((a >> 104u128) & 0xff) as u8 == ((b >> 104u128) & 0xff) as u8);
    assert(id_bytes(a)[14] == id_byte(a, 14) && id_bytes(b)[14] == id_byte(b, 14));
    assert(((a >> 112u128) & 0xff) as u8 == ((b >> 112u128) & 0xff) as u8);
    assert(id_bytes(a)[15] == id_byte(a, 15) && id_bytes(b)[15] == id_byte(b, 15));
    assert(((a >> 120u128) & 0xff) as u8 == ((b >> 120u128) & 0xff) as u8);
    assert(a == b) by (bit_vector)
        requires
            ((a >> 0u128) & 0xff) as u8 == ((b >> 0u128) & 0xff) as u8,
            ((a >> 8u128) & 0xff) as u8 == ((b >> 8u128) & 0xff) as u8,
            ((a >> 16u128) & 0xff) as u8 == ((b >> 16u128) & 0xff) as u8,
            ((a >> 24u128) & 0xff) as u8 == ((b >> 24u128) & 0xff) as u8,
            ((a >> 32u128) & 0xff) as u8 == ((b >> 32u128) & 0xff) as u8,
            ((a >> 40u128) & 0xff) as u8 == ((b >> 40u128) & 0xff) as u8,
            ((a >> 48u128) & 0xff) as u8 == ((b >> 48u128) & 0xff) as u8,
            ((a >> 56u128) & 0xff) as u8 == ((b >> 56u128) & 0xff) as u8,
            ((a >> 64u128) & 0xff) as u8 == ((b >> 64u128) & 0xff) as u8,
            ((a >> 72u128) & 0xff) as u8 == ((b >> 72u128) & 0xff) as u8,
            ((a >> 80u128) & 0xff) as u8 == ((b >> 80u128) & 0xff) as u8,
            ((a >> 88u128) & 0xff) as u8 == ((b >> 88u128) & 0xff) as u8,
            ((a >> 96u128) & 0xff) as u8 == ((b >> 96u128) & 0xff) as u8,
            ((a >> 104u128) & 0xff) as u8 == ((b >> 104u128) & 0xff) as u8,
            ((a >> 112u128) & 0xff) as u8 == ((b >> 112u128) & 0xff) as u8,
            ((a >> 120u128) & 0xff) as u8 == ((b >> 120u128) & 0xff) as u8,
    ;
}

pub proof fn lemma_entry_lt_irreflexive(a: EntryView)
    ensures
        !entry_lt(a, a),
{
    lemma_seq_lt_irreflexive(id_bytes(a.id));
    lemma_seq_lt_irreflexive(encode_utf8(a.key));
}

pub proof fn lemma_entry_lt_transitive(a: EntryView, b: EntryView, c: EntryView)
    requires
        entry_lt(a, b),
        entry_lt(b, c),
    ensures
        entry_lt(a, c),
{
    if a.time == b.time && b.time == c.time {
        let (ia, ib, ic) = (id_bytes(a.id), id_bytes(b.id), id_bytes(c.id));
        if seq_lt(ia, ib) && seq_lt(ib, ic) {
            lemma_seq_lt_transitive(ia, ib, ic);
        } else if seq_lt(encode_utf8(a.key), encode_utf8(b.key)) && seq_lt(
            encode_utf8(b.key),
            encode_utf8(c.key),
        ) && a.id == b.id && b.id == c.id {
            lemma_seq_lt_transitive(encode_utf8(a.key), encode_utf8(b.key), encode_utf8(c.key));
        }
    }
}

pub proof fn lemma_entry_lt_total(a: EntryView, b: EntryView)
    ensures
        a == b || entry_lt(a, b) || entry_lt(b, a),
{
    lemma_seq_lt_total(id_bytes(a.id), id_bytes(b.id));
    lemma_seq_lt_total(encode_utf8(a.key), encode_utf8(b.key));
    if id_bytes(a.id) == id_bytes(b.id) {
        lemma_id_bytes_injective(a.id, b.id);
    }
    if encode_utf8(a.key) == encode_utf8(b.key) {
        encode_utf8_decode_utf8(a.key);
        encode_utf8_decode_utf8(b.key);
    }
}

pub proof fn lemma_entry_lt_asymmetric(a: EntryView, b: EntryView)
    requires
        entry_lt(a, b),
    ensures
        !entry_lt(b, a),
{
    if entry_lt(b, a) {
        lemma_entry_lt_transitive(a, b, a);
        lemma_entry_lt_irreflexive(a);
    }
}

fn id_byte_vec(id: u128) -> (r: Vec<u8>)
    ensures
        r@ == id_bytes(id),
{
    let mut r: Vec<u8> = Vec::new();
    let mut k: u128 = 0;
    while k < 16
        invariant
            k <= 16,
            r@.len() == k,
            forall|j: int| 0 <= j < k ==> r@[j] == id_byte(id, j),
        decreases 16 - k,
    {
        r.push(((id >> (8 * k)) & 0xff) as u8);
        k = k + 1;
    }
    assert(r@ =~= id_bytes(id));
    r
}

impl Timestamp {
    /// Milliseconds elapsed since the UNIX epoch.
    pub fn millis(&self) -> (r: u64)
        ensures
            r == millis_of(self.time),
    {
        ntp64_nanos(self.time) / 1_000_000
    }
}

impl LogEntry {
    /// Three-way comparison in log order.
    pub fn compare(&self, other: &LogEntry) -> (r: i8)
        ensures
            r < 0 <==> entry_lt(self@, other@),
            r == 0 <==> self@ == other@,
            r > 0 <==> entry_lt(other@, self@),
    {
        proof {
            lemma_entry_lt_total(self@, other@);
            lemma_entry_lt_irreflexive(self@);
        }
        if self.timestamp.time < other.timestamp.time {
            return -1;
        }
        if self.timestamp.time > other.timestamp.time {
            return 1;
        }
        let a = id_byte_vec(self.timestamp.id);
        let b = id_byte_vec(other.timestamp.id);
        let c = compare_bytes(a.as_slice(), b.as_slice());
        if c != 0 {
            proof {
                if c < 0 {
                    lemma_seq_lt_asymmetric(id_bytes(self@.id), id_bytes(other@.id));
                } else {
                    lemma_seq_lt_asymmetric(id_bytes(other@.id), id_bytes(self@.id));
                }
            }
            return c;
        }
        proof { lemma_id_bytes_injective(self@.id, other@.id); }
        let c = compare_bytes(self.key.as_str().as_bytes(), other.key.as_str().as_bytes());
        proof {
            if c < 0 {
                lemma_seq_lt_asymmetric(encode_utf8(self@.key), encode_utf8(other@.key));
            } else if c > 0 {
                lemma_seq_lt_asymmetric(encode_utf8(other@.key), encode_utf8(self@.key));
            } else {
                encode_utf8_decode_utf8(self@.key);
                encode_utf8_decode_utf8(other@.key);
            }
            lemma_seq_lt_irreflexive(id_bytes(self@.id));
        }
        c
    }

    /// Appends the hashed text of this entry to `out`.
    pub fn push_text(&self, out: &mut Vec<u8>)
        ensures
            final(out)@ == old(out)@ + entry_text(self@),
    {
        let time = rfc3339_bytes(self.timestamp.time);
        out.extend_from_slice(time.as_slice());
        out.push(47);
        push_hexadecimal(self.timestamp.id, out);
        out.push(45);
        out.extend_from_slice(self.key.as_str().as_bytes());
        assert(final(out)@ =~= old(out)@ + entry_text(self@));
    }
}

} // verus!
