use vstd::prelude::*;
use std::time::{Duration, Instant};
use crate::text::{append_hex_fixed, hex_fixed};
use crate::timing::{clock_elapsed, clock_now};

verus! {

/// FNV-1a 64-bit offset basis.
pub const FNV_OFFSET: u64 = 0xcbf29ce484222325;

/// FNV-1a 64-bit prime.
pub const FNV_PRIME: u64 = 0x100000001b3;

/// One FNV-1a step: xor the byte in, then multiply (wrapping) by the prime.
pub open spec fn fnv_step(h: u64, b: u8) -> u64 {
    (h ^ (b as u64)).wrapping_mul(FNV_PRIME)
}

/// FNV-1a 64-bit hash of a byte sequence.
pub open spec fn fnv1a64_spec(data: Seq<u8>) -> u64
    decreases data.len(),
{
    if data.len() == 0 {
        FNV_OFFSET
    } else {
        fnv_step(fnv1a64_spec(data.drop_last()), data.last())
    }
}

/// The little-endian bytes of a 64-bit value.
pub open spec fn le_bytes(v: u64) -> Seq<u8> {
    Seq::new(8, |i: int| ((v >> (8 * i) as u64) & 0xff) as u8)
}

/// Deterministic 64-bit FNV-1a hash of `data`.
pub fn fnv1a64(data: &[u8]) -> (h: u64)
    ensures
        h == fnv1a64_spec(data@),
{
    let mut hash: u64 = FNV_OFFSET;
    let mut i: usize = 0;
    while i < data.len()
        invariant
            i <= data@.len(),
            hash == fnv1a64_spec(data@.take(i as int)),
        decreases data@.len() - i,
    {
        let b = data[i];
        assert(data@.take(i as int + 1).drop_last() =~= data@.take(i as int));
        hash = (hash ^ (b as u64)).wrapping_mul(FNV_PRIME);
        i = i + 1;
    }
    assert(data@.take(data@.len() as int) =~= data@);
    hash
}

fn le_bytes_of(v: u64) -> (out: Vec<u8>)
    ensures
        out@ == le_bytes(v),
{
    let mut out: Vec<u8> = Vec::new();
    let mut i: u64 = 0;
    while i < 8
        invariant
            i <= 8,
            out@.len() == i,
            forall|j: int| 0 <= j < i ==> out@[j] == ((v >> (8 * j) as u64) & 0xff) as u8,
        decreases 8 - i,
    {
        out.push(((v >> (8 * i)) & 0xff) as u8);
        i = i + 1;
    }
    assert(out@ =~= le_bytes(v));
    out
}

/// Deterministic 64-bit fingerprint (FNV-1a). Stable across platforms for the
/// same bytes. Not cryptographic; collisions are possible.
#[derive(Clone, Copy, PartialEq, Eq, Hash, Default, Debug, Structural)]
pub struct Fingerprint(pub u64);

impl Fingerprint {
    pub fn from_raw(v: u64) -> (f: Fingerprint)
        ensures
            f.0 == v,
    {
        Fingerprint(v)
    }

    pub fn raw(self) -> (v: u64)
        ensures
            v == self.0,
    {
        self.0
    }

    pub fn of_bytes(bytes: &[u8]) -> (f: Fingerprint)
        ensures
            f.0 == fnv1a64_spec(bytes@),
    {
        Fingerprint(fnv1a64(bytes))
    }

    /// The fingerprint of the little-endian bytes of `v`.
    pub fn of_u64(v: u64) -> (f: Fingerprint)
        ensures
            f.0 == fnv1a64_spec(le_bytes(v)),
    {
        let b = le_bytes_of(v);
        Fingerprint(fnv1a64(b.as_slice()))
    }

    /// The fingerprint of the 16 bytes: this one's little-endian bytes, then the other's.
    pub fn combine(self, other: Fingerprint) -> (f: Fingerprint)
        ensures
            f.0 == fnv1a64_spec(le_bytes(self.0) + le_bytes(other.0)),
    {
        let mut buf = le_bytes_of(self.0);
        let mut tail = le_bytes_of(other.0);
        buf.append(&mut tail);
        Fingerprint(fnv1a64(buf.as_slice()))
    }

    /// The 16 lower-case hex digits of the fingerprint.
    pub fn hex(&self) -> (s: String)
        ensures
            s@ == hex_fixed(self.0 as nat, 16),
    {
        let mut s = String::new();
        append_hex_fixed(&mut s, self.0, 16);
        assert(s@ =~= hex_fixed(self.0 as nat, 16));
        s
    }
}

/// Times a fingerprint computation.
pub struct FingerprintTimer {
    start: Instant,
}

impl FingerprintTimer {
    pub fn start() -> FingerprintTimer {
        FingerprintTimer { start: clock_now() }
    }

    /// The fingerprint of `bytes` and the time since the timer started.
    pub fn finish(self, bytes: &[u8]) -> (r: (Fingerprint, Duration))
        ensures
            r.0.0 == fnv1a64_spec(bytes@),
    {
        let fp = Fingerprint::of_bytes(bytes);
        (fp, clock_elapsed(&self.start))
    }
}

/// The fingerprint of `bytes`, and how long it took.
pub fn fingerprint_bytes(bytes: &[u8]) -> (r: (Fingerprint, Duration))
    ensures
        r.0.0 == fnv1a64_spec(bytes@),
{
    FingerprintTimer::start().finish(bytes)
}

/// Multiplying by the prime (wrapping) loses nothing: it has an inverse.
proof fn lemma_mul_prime_injective(x: u64, y: u64)
    requires
        x.wrapping_mul(FNV_PRIME) == y.wrapping_mul(FNV_PRIME),
    ensures
        x == y,
{
    assert(x.wrapping_mul(0x100000001b3u64).wrapping_mul(0xce965057aff6957bu64) == x) by (bit_vector);
    assert(y.wrapping_mul(0x100000001b3u64).wrapping_mul(0xce965057aff6957bu64) == y) by (bit_vector);
}

/// One FNV-1a step tells bytes apart: from the same state, two different
/// bytes lead to different states.
pub proof fn law_fnv_step_separates_bytes(h: u64, b1: u8, b2: u8)
    requires
        b1 != b2,
    ensures
        fnv_step(h, b1) != fnv_step(h, b2),
{
    let x1 = h ^ (b1 as u64);
    let x2 = h ^ (b2 as u64);
    assert(x1 != x2) by (bit_vector)
        requires
            b1 != b2,
            x1 == h ^ (b1 as u64),
            x2 == h ^ (b2 as u64),
    ;
    if fnv_step(h, b1) == fnv_step(h, b2) {
        lemma_mul_prime_injective(x1, x2);
    }
}

/// One FNV-1a step keeps states apart: two different states stay different
/// after the same byte.
pub proof fn law_fnv_step_keeps_states_apart(h1: u64, h2: u64, b: u8)
    requires
        h1 != h2,
    ensures
        fnv_step(h1, b) != fnv_step(h2, b),
{
    let x1 = h1 ^ (b as u64);
    let x2 = h2 ^ (b as u64);
    assert(x1 != x2) by (bit_vector)
        requires
            h1 != h2,
            x1 == h1 ^ (b as u64),
            x2 == h2 ^ (b as u64),
    ;
    if fnv_step(h1, b) == fnv_step(h2, b) {
        lemma_mul_prime_injective(x1, x2);
    }
}

/// The fingerprint detects every one-byte change: two byte sequences of the
/// same length that differ in exactly one place hash differently.
pub proof fn law_fnv_detects_one_byte_change(a: Seq<u8>, b: Seq<u8>, i: int)
    requires
        a.len() == b.len(),
        0 <= i < a.len(),
        a[i] != b[i],
        forall|j: int| 0 <= j < a.len() && j != i ==> a[j] == b[j],
    ensures
        fnv1a64_spec(a) != fnv1a64_spec(b),
    decreases a.len(),
{
    let n = a.len() - 1;
    if i == n {
        assert(a.drop_last() =~= b.drop_last());
        law_fnv_step_separates_bytes(fnv1a64_spec(a.drop_last()), a.last(), b.last());
    } else {
        law_fnv_detects_one_byte_change(a.drop_last(), b.drop_last(), i);
        assert(a.last() == b.last());
        law_fnv_step_keeps_states_apart(fnv1a64_spec(a.drop_last()), fnv1a64_spec(b.drop_last()), a.last());
    }
}

proof fn lemma_fnv_one_byte(b: u8)
    ensures
        fnv1a64_spec(seq![b]) == fnv_step(FNV_OFFSET, b),
{
    let s1 = seq![b];
    assert(s1.drop_last() =~= Seq::<u8>::empty());
    assert(s1.last() == b);
    assert(fnv1a64_spec(Seq::<u8>::empty()) == FNV_OFFSET);
    assert(fnv1a64_spec(s1) == fnv_step(fnv1a64_spec(s1.drop_last()), s1.last()));
}

/// The hash of no bytes is the offset basis, and each byte is xored in before
/// the multiplication by the prime: the hash of "a" is 0xaf63dc4c8601ec8c.
pub proof fn law_fnv_first_steps(b: u8)
    ensures
        fnv1a64_spec(Seq::empty()) == 0xcbf29ce484222325u64,
        fnv1a64_spec(seq![b]) == (0xcbf29ce484222325u64 ^ (b as u64)).wrapping_mul(0x100000001b3u64),
        fnv1a64_spec(seq![97u8]) == 0xaf63dc4c8601ec8cu64,
{
    lemma_fnv_one_byte(b);
    lemma_fnv_one_byte(97u8);
    let h = fnv_step(FNV_OFFSET, 97u8);
    assert(h == (0xcbf29ce484222325u64 ^ 97u64).wrapping_mul(0x100000001b3u64));
    assert((0xcbf29ce484222325u64 ^ 97u64).wrapping_mul(0x100000001b3u64) == 0xaf63dc4c8601ec8cu64) by (bit_vector);
}

} // verus!
