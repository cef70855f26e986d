//! A stable key for the content of a light curve.
use crate::binary64::Binary64;
use vstd::prelude::*;

verus! {

/// The key of no bytes: the offset basis of 64-bit FNV-1a.
pub const OFFSET: u64 = 0xcbf2_9ce4_8422_2325;

/// What the key is multiplied by after each byte: the prime of 64-bit FNV-1a.
pub const PRIME: u64 = 0x100_0000_01b3;

/// The bytes of a number, least significant first.
pub open spec fn le_bytes(v: u64) -> Seq<u8> {
    Seq::new(8, |k: int| #[verifier::truncate] ((v >> ((8 * k) as u64)) as u8))
}

/// The key of a row of bytes, 64-bit FNV-1a: each byte is mixed in by exclusive or, then by a
/// multiplication that wraps.
pub open spec fn key_of(bytes: Seq<u8>) -> u64
    decreases bytes.len(),
{
    if bytes.len() == 0 {
        OFFSET
    } else {
        (key_of(bytes.drop_last()) ^ (bytes.last() as u64)).wrapping_mul(PRIME)
    }
}

/// The bytes of the first `n` observations, behind their full number.
pub open spec fn content_bytes(
    times: Seq<Binary64>,
    flux: Seq<Binary64>,
    flux_err: Seq<Binary64>,
    n: nat,
) -> Seq<u8>
    decreases n,
{
    if n == 0 {
        le_bytes(times.len() as u64)
    } else {
        content_bytes(times, flux, flux_err, (n - 1) as nat) + le_bytes(times[n - 1].bits)
            + le_bytes(flux[n - 1].bits) + le_bytes(flux_err[n - 1].bits)
    }
}

/// The key of a light curve.
pub open spec fn content_key(
    times: Seq<Binary64>,
    flux: Seq<Binary64>,
    flux_err: Seq<Binary64>,
) -> u64 {
    key_of(content_bytes(times, flux, flux_err, times.len()))
}

/// Mixes eight bytes into a key.
fn mix(key: u64, v: u64) -> (r: u64)
    ensures
        forall|before: Seq<u8>|
            key_of(before) == key ==> r == key_of(#[trigger] (before + le_bytes(v))),
{
    let mut h: u64 = key;
    let mut k: u64 = 0;
    assert forall|before: Seq<u8>| key_of(before) == key implies h == key_of(
        #[trigger] (before + le_bytes(v).subrange(0, 0)),
    ) by {
        assert(before + le_bytes(v).subrange(0, 0) =~= before);
    }
    while k < 8
        invariant
            k <= 8,
            forall|before: Seq<u8>|
                key_of(before) == key ==> h == key_of(
                    #[trigger] (before + le_bytes(v).subrange(0, k as int)),
                ),
        decreases 8 - k,
    {
        let byte: u8 = #[verifier::truncate] ((v >> (8 * k)) as u8);
        let next: u64 = (h ^ (byte as u64)).wrapping_mul(PRIME);
        assert forall|before: Seq<u8>| key_of(before) == key implies next == key_of(
            #[trigger] (before + le_bytes(v).subrange(0, k + 1)),
        ) by {
            let longer = before + le_bytes(v).subrange(0, k + 1);
            assert(longer.drop_last() =~= before + le_bytes(v).subrange(0, k as int));
            assert(longer.last() == byte);
        }
        h = next;
        k += 1;
    }
    assert forall|before: Seq<u8>| key_of(before) == key implies h == key_of(
        #[trigger] (before + le_bytes(v)),
    ) by {
        assert(le_bytes(v).subrange(0, 8) =~= le_bytes(v));
    }
    h
}

/// The key of a light curve: it depends on the observations alone, not on where
/// the light curve stands in a batch.
pub fn content_hash(times: &Vec<Binary64>, flux: &Vec<Binary64>, flux_err: &Vec<Binary64>) -> (r: u64)
    requires
        flux.len() >= times.len(),
        flux_err.len() >= times.len(),
    ensures
        r == content_key(times@, flux@, flux_err@),
{
    let mut h: u64 = mix(OFFSET, times.len() as u64);
    assert(key_of(seq![]) == OFFSET);
    assert(Seq::<u8>::empty() + le_bytes(times.len() as u64) =~= le_bytes(times.len() as u64));
    let mut i: usize = 0;
    while i < times.len()
        invariant
            i <= times.len(),
            flux.len() >= times.len(),
            flux_err.len() >= times.len(),
            h == key_of(content_bytes(times@, flux@, flux_err@, i as nat)),
        decreases times.len() - i,
    {
        h = mix(h, times[i].bits);
        h = mix(h, flux[i].bits);
        h = mix(h, flux_err[i].bits);
        i += 1;
    }
    h
}

} // verus!
