//! The constants-table reader: a packed little-endian byte stream of
//! input-signal records, witness indices and constant records, as the
//! circuit front end lays it out.

use vstd::prelude::*;
use crate::codec::{read_u64, dec_u64};
use crate::field::{Felt, p, b64, b128, b192, b256, modulus, felt_lt, wrapping_sub, from_mont, lemma_p_bounds};
use crate::graph::{InputSignalInfo, mont_reduce_node};
use crate::ops::Error;

verus! {

/// The value of four little-endian bytes.
pub open spec fn dec_u32(bytes: Seq<u8>, pos: int) -> nat {
    (bytes[pos] as nat) + 0x100 * (bytes[pos + 1] as nat) + 0x10000 * (bytes[pos + 2] as nat)
        + 0x1000000 * (bytes[pos + 3] as nat)
}

/// Reads four little-endian bytes at `pos`.
fn read_u32(bytes: &Vec<u8>, pos: usize) -> (r: u32)
    requires
        pos + 4 <= bytes@.len(),
    ensures
        r as nat == dec_u32(bytes@, pos as int),
{
    let bl = bytes.len();
    let mut v: u32 = bytes[pos + 3] as u32;
    v = v * 0x100 + bytes[pos + 2] as u32;
    v = v * 0x100 + bytes[pos + 1] as u32;
    v = v * 0x100 + bytes[pos] as u32;
    v
}

/// The canonical value of one 40-byte constant record: a short value with
/// the sign folded into the field, a canonical long value, or a long value
/// in Montgomery form, as the two top flag bits say.
pub open spec fn const_record_val(bytes: Seq<u8>, pos: int) -> nat {
    let short = dec_u32(bytes, pos);
    let flags = dec_u32(bytes, pos + 4);
    let long = dec_u64(bytes, pos + 8) + dec_u64(bytes, pos + 16) * b64() + dec_u64(
        bytes,
        pos + 24,
    ) * b128() + dec_u64(bytes, pos + 32) * b192();
    if flags >= 0x8000_0000 {
        if (flags / 0x4000_0000) % 2 == 1 {
            from_mont(long) % p()
        } else {
            long
        }
    } else {
        if short < 0x8000_0000 {
            short
        } else {
            (p() - (0x1_0000_0000 - short)) as nat
        }
    }
}

/// Whether a long constant record holds a value below the prime.
pub open spec fn const_record_ok(bytes: Seq<u8>, pos: int) -> bool {
    let flags = dec_u32(bytes, pos + 4);
    flags >= 0x8000_0000 ==> dec_u64(bytes, pos + 8) + dec_u64(bytes, pos + 16) * b64() + dec_u64(
        bytes,
        pos + 24,
    ) * b128() + dec_u64(bytes, pos + 32) * b192() < p()
}

/// Reads one 40-byte constant record at `pos`: the short value, the flag
/// word, and the 256-bit long value.
fn read_const_record(bytes: &Vec<u8>, pos: usize, m: &Felt) -> (r: Result<Felt, Error>)
    requires
        pos + 40 <= bytes@.len(),
        m.as_nat() == p(),
    ensures
        match r {
            Ok(c) => const_record_ok(bytes@, pos as int) && c.is_canonical() && c.as_nat()
                == const_record_val(bytes@, pos as int),
            Err(e) => !const_record_ok(bytes@, pos as int) && (e matches Error::MalformedGraph),
        },
{
    proof {
        lemma_p_bounds();
        assert(p() > 0x1_0000_0000);
    }
    let bl = bytes.len();
    let short = read_u32(bytes, pos);
    let flags = read_u32(bytes, pos + 4);
    if flags >= 0x8000_0000 {
        let v = Felt {
            l0: read_u64(bytes, pos + 8),
            l1: read_u64(bytes, pos + 16),
            l2: read_u64(bytes, pos + 24),
            l3: read_u64(bytes, pos + 32),
        };
        if !felt_lt(&v, m) {
            return Err(Error::MalformedGraph);
        }
        if (flags / 0x4000_0000) % 2 == 1 {
            Ok(mont_reduce_node(&v, m))
        } else {
            Ok(v)
        }
    } else {
        if short < 0x8000_0000 {
            Ok(Felt::from_u64(short as u64))
        } else {
            let mag = Felt::from_u64(0x1_0000_0000u64 - short as u64);
            let c = wrapping_sub(m, &mag);
            proof {
                crate::field::lemma_as_nat_bound(mag);
                let x = (p() - mag.as_nat()) as int;
                vstd::arithmetic::div_mod::lemma_mod_multiples_vanish(1, x, b256() as int);
                vstd::arithmetic::div_mod::lemma_small_mod(x as nat, b256());
            }
            Ok(c)
        }
    }
}

/// Reads the constants table: `count` records of 40 bytes each, starting at
/// `pos`. Each becomes a canonical field element per the record's flags;
/// a long record at or above the prime is malformed.
pub fn get_constants(bytes: &Vec<u8>, pos: usize, count: usize) -> (r: Result<Vec<Felt>, Error>)
    ensures
        match r {
            Ok(cs) => {
                &&& pos + 40 * count <= bytes@.len()
                &&& cs@.len() == count
                &&& forall|k: int|
                    0 <= k < count ==> (#[trigger] cs@[k]).is_canonical() && cs@[k].as_nat()
                        == const_record_val(bytes@, pos + 40 * k) && const_record_ok(
                        bytes@,
                        pos + 40 * k,
                    )
            },
            Err(e) => (e matches Error::MalformedGraph) && (pos + 40 * count > bytes@.len()
                || exists|k: int|
                0 <= k < count && !(#[trigger] const_record_ok(bytes@, pos + 40 * k))),
        },
{
    let len = bytes.len();
    if pos > len || count > (len - pos) / 40 {
        return Err(Error::MalformedGraph);
    }
    let m = modulus();
    let mut out: Vec<Felt> = Vec::new();
    for k in 0..count
        invariant
            len == bytes@.len(),
            m.as_nat() == p(),
            pos + 40 * count <= len,
            out@.len() == k,
            forall|k2: int|
                0 <= k2 < k ==> (#[trigger] out@[k2]).is_canonical() && out@[k2].as_nat()
                    == const_record_val(bytes@, pos + 40 * k2) && const_record_ok(
                    bytes@,
                    pos + 40 * k2,
                ),
    {
        match read_const_record(bytes, pos + 40 * k, &m) {
            Ok(c) => {
                out.push(c);
            },
            Err(e) => {
                return Err(e);
            },
        }
    }
    Ok(out)
}

/// Reads the input-signal records: `count` entries of 24 bytes each (name
/// hash, first slot, slot count), starting at `pos`. A slot or size beyond
/// the machine's range is malformed.
pub fn get_input_hash_map(bytes: &Vec<u8>, pos: usize, count: usize) -> (r: Result<
    Vec<(u64, InputSignalInfo)>,
    Error,
>)
    ensures
        match r {
            Ok(es) => {
                &&& pos + 24 * count <= bytes@.len()
                &&& es@.len() == count
                &&& forall|k: int|
                    0 <= k < count ==> (#[trigger] es@[k]).0 as nat == dec_u64(
                        bytes@,
                        pos + 24 * k,
                    ) && es@[k].1.id as nat == dec_u64(bytes@, pos + 24 * k + 8)
                        && es@[k].1.size as nat == dec_u64(bytes@, pos + 24 * k + 16)
            },
            Err(e) => e matches Error::MalformedGraph,
        },
{
    let len = bytes.len();
    if pos > len || count > (len - pos) / 24 {
        return Err(Error::MalformedGraph);
    }
    let mut out: Vec<(u64, InputSignalInfo)> = Vec::new();
    for k in 0..count
        invariant
            len == bytes@.len(),
            pos + 24 * count <= len,
            out@.len() == k,
            forall|k2: int|
                0 <= k2 < k ==> (#[trigger] out@[k2]).0 as nat == dec_u64(bytes@, pos + 24 * k2)
                    && out@[k2].1.id as nat == dec_u64(bytes@, pos + 24 * k2 + 8)
                    && out@[k2].1.size as nat == dec_u64(bytes@, pos + 24 * k2 + 16),
    {
        let base = pos + 24 * k;
        let hash = read_u64(bytes, base);
        let id = read_u64(bytes, base + 8);
        let size = read_u64(bytes, base + 16);
        if id > usize::MAX as u64 || size > usize::MAX as u64 {
            return Err(Error::MalformedGraph);
        }
        out.push((hash, InputSignalInfo { id: id as usize, size: size as usize }));
    }
    Ok(out)
}

/// Reads the witness schedule: `count` records of 8 bytes each, the output
/// node index per witness slot, starting at `pos`.
pub fn get_witness_to_signal(bytes: &Vec<u8>, pos: usize, count: usize) -> (r: Result<
    Vec<usize>,
    Error,
>)
    ensures
        match r {
            Ok(ws) => {
                &&& pos + 8 * count <= bytes@.len()
                &&& ws@.len() == count
                &&& forall|k: int|
                    0 <= k < count ==> (#[trigger] ws@[k]) as nat == dec_u64(bytes@, pos + 8 * k)
            },
            Err(e) => e matches Error::MalformedGraph,
        },
{
    let len = bytes.len();
    if pos > len || count > (len - pos) / 8 {
        return Err(Error::MalformedGraph);
    }
    let mut out: Vec<usize> = Vec::new();
    for k in 0..count
        invariant
            len == bytes@.len(),
            pos + 8 * count <= len,
            out@.len() == k,
            forall|k2: int|
                0 <= k2 < k ==> (#[trigger] out@[k2]) as nat == dec_u64(bytes@, pos + 8 * k2),
    {
        let si = read_u64(bytes, pos + 8 * k);
        if si > usize::MAX as u64 {
            return Err(Error::MalformedGraph);
        }
        out.push(si as usize);
    }
    Ok(out)
}

} // verus!
