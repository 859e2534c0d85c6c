//! Byte-level pieces of the wire formats: finding a piece of bytes at a
//! position, and reading or appending integers, 32-byte values, optional
//! values and length-prefixed byte strings.
use vstd::bytes::*;
use vstd::prelude::*;

verus! {

/// `s` occurs in `d` at `pos`.
pub open spec fn has_at(d: Seq<u8>, pos: int, s: Seq<u8>) -> bool {
    0 <= pos && pos + s.len() <= d.len() && d.subrange(pos, pos + s.len()) == s
}

/// Encoding of an optional 32-byte value.
pub open spec fn key_bytes(o: Option<[u8; 32]>) -> Seq<u8> {
    match o {
        None => seq![0u8],
        Some(k) => seq![1u8] + k@,
    }
}

/// Encoding of a byte string: its length, then its bytes.
pub open spec fn blob_bytes(v: Seq<u8>) -> Seq<u8> {
    spec_u32_to_le_bytes(v.len() as u32) + v
}

/// Appends `s` to `out`.
pub(crate) fn push_all(out: &mut Vec<u8>, s: &[u8])
    ensures
        final(out)@ == old(out)@ + s@,
{
    let mut i: usize = 0;
    while i < s.len()
        invariant
            i <= s@.len(),
            out@ == old(out)@ + s@.take(i as int),
        decreases s@.len() - i,
    {
        out.push(s[i]);
        assert(s@.take(i + 1) =~= s@.take(i as int).push(s@[i as int]));
        i = i + 1;
    }
    assert(s@.take(i as int) =~= s@);
}

/// Appends the encoding of an optional value.
pub(crate) fn push_key(out: &mut Vec<u8>, o: &Option<[u8; 32]>)
    ensures
        final(out)@ == old(out)@ + key_bytes(*o),
{
    match o {
        None => {
            out.push(0u8);
            assert(out@ =~= old(out)@ + key_bytes(*o));
        },
        Some(k) => {
            out.push(1u8);
            push_all(out, k.as_slice());
            assert(out@ =~= old(out)@ + key_bytes(*o));
        },
    }
}

/// Appends the encoding of a byte string.
pub(crate) fn push_blob(out: &mut Vec<u8>, v: &Vec<u8>)
    requires
        v@.len() <= u32::MAX,
    ensures
        final(out)@ == old(out)@ + blob_bytes(v@),
{
    let len = u32_to_le_bytes(v.len() as u32);
    push_all(out, len.as_slice());
    push_all(out, v.as_slice());
    assert(out@ =~= old(out)@ + blob_bytes(v@));
}

/// The bytes `data[pos..pos + n]`.
pub(crate) fn copy_range(data: &[u8], pos: usize, n: usize) -> (r: Vec<u8>)
    requires
        pos + n <= data@.len(),
    ensures
        r@ == data@.subrange(pos as int, pos + n),
{
    let total = data.len();
    let mut out: Vec<u8> = Vec::new();
    let mut i: usize = 0;
    while i < n
        invariant
            i <= n,
            total == data@.len(),
            pos + n <= data@.len(),
            out@ == data@.subrange(pos as int, pos + i),
        decreases n - i,
    {
        out.push(data[pos + i]);
        assert(out@ =~= data@.subrange(pos as int, pos + i + 1));
        i = i + 1;
    }
    out
}

/// Reads a 32-byte value at `pos`.
pub(crate) fn read_array(data: &[u8], pos: usize) -> (r: Option<[u8; 32]>)
    ensures
        r is Some <==> pos + 32 <= data@.len(),
        r matches Some(a) ==> a@ == data@.subrange(pos as int, pos + 32),
{
    if pos > data.len() || data.len() - pos < 32 {
        return None;
    }
    let total = data.len();
    let mut a = [0u8; 32];
    let mut i: usize = 0;
    while i < 32
        invariant
            i <= 32,
            total == data@.len(),
            pos + 32 <= data@.len(),
            forall|k: int| 0 <= k < i ==> a@[k] == data@[pos + k],
        decreases 32 - i,
    {
        a[i] = data[pos + i];
        i = i + 1;
    }
    assert(a@ =~= data@.subrange(pos as int, pos + 32));
    Some(a)
}

/// Reads a little-endian `u64` at `pos`.
pub(crate) fn read_u64(data: &[u8], pos: usize) -> (r: Option<u64>)
    ensures
        r is Some <==> pos + 8 <= data@.len(),
        r matches Some(x) ==> spec_u64_to_le_bytes(x) == data@.subrange(pos as int, pos + 8),
        forall|x: u64| has_at(data@, pos as int, spec_u64_to_le_bytes(x)) ==> r == Some(x),
{
    proof {
        lemma_auto_spec_u64_to_from_le_bytes();
    }
    if pos > data.len() || data.len() - pos < 8 {
        return None;
    }
    let bytes = copy_range(data, pos, 8);
    let x = u64_from_le_bytes(bytes.as_slice());
    Some(x)
}

/// Reads a little-endian `u32` at `pos`.
pub(crate) fn read_u32(data: &[u8], pos: usize) -> (r: Option<u32>)
    ensures
        r is Some <==> pos + 4 <= data@.len(),
        r matches Some(x) ==> spec_u32_to_le_bytes(x) == data@.subrange(pos as int, pos + 4),
        forall|x: u32| has_at(data@, pos as int, spec_u32_to_le_bytes(x)) ==> r == Some(x),
{
    proof {
        lemma_auto_spec_u32_to_from_le_bytes();
    }
    if pos > data.len() || data.len() - pos < 4 {
        return None;
    }
    let bytes = copy_range(data, pos, 4);
    let x = u32_from_le_bytes(bytes.as_slice());
    Some(x)
}

/// Reads an optional value at `pos`; returns it and the position after it.
pub(crate) fn read_key(data: &[u8], pos: usize) -> (r: Option<(Option<[u8; 32]>, usize)>)
    ensures
        r matches Some((o, n)) ==> n == pos + key_bytes(o).len() && has_at(
            data@,
            pos as int,
            key_bytes(o),
        ),
        forall|o: Option<[u8; 32]>|
            has_at(data@, pos as int, key_bytes(o)) ==> (r matches Some((o2, n)) && key_bytes(o2)
                == key_bytes(o)),
{
    if pos >= data.len() {
        return None;
    }
    let tag = data[pos];
    if tag == 0 {
        assert(data@.subrange(pos as int, pos + 1) =~= seq![0u8]);
        proof {
            assert forall|o: Option<[u8; 32]>| has_at(data@, pos as int, key_bytes(o)) implies key_bytes(
                o,
            ) == key_bytes(None) by {
                if o is Some {
                    assert(data@.subrange(pos as int, pos + key_bytes(o).len())[0] == 1u8);
                }
            }
        }
        Some((None, pos + 1))
    } else if tag == 1 {
        match read_array(data, pos + 1) {
            Some(k) => {
                assert(data@.subrange(pos as int, pos + 33) =~= seq![1u8] + k@);
                proof {
                    assert forall|o: Option<[u8; 32]>| has_at(data@, pos as int, key_bytes(o)) implies key_bytes(
                        o,
                    ) == key_bytes(Some(k)) by {
                        if o is None {
                            assert(data@.subrange(pos as int, pos + 1)[0] == 0u8);
                        } else {
                            assert(key_bytes(o) =~= data@.subrange(pos as int, pos + 33));
                        }
                    }
                }
                Some((Some(k), pos + 33))
            },
            None => {
                proof {
                    assert forall|o: Option<[u8; 32]>| !has_at(data@, pos as int, key_bytes(o)) by {
                        if has_at(data@, pos as int, key_bytes(o)) {
                            if o is None {
                                assert(data@.subrange(pos as int, pos + 1)[0] == 0u8);
                            }
                        }
                    }
                }
                None
            },
        }
    } else {
        proof {
            assert forall|o: Option<[u8; 32]>| !has_at(data@, pos as int, key_bytes(o)) by {
                if has_at(data@, pos as int, key_bytes(o)) {
                    assert(data@.subrange(pos as int, pos + key_bytes(o).len())[0] == key_bytes(o)[0]);
                }
            }
        }
        None
    }
}

/// A prefix and what follows it, both found where their concatenation is.
pub(crate) proof fn lemma_has_at_split(d: Seq<u8>, pos: int, a: Seq<u8>, b: Seq<u8>)
    requires
        has_at(d, pos, a + b),
    ensures
        has_at(d, pos, a),
        has_at(d, pos + a.len(), b),
{
    assert(d.subrange(pos, pos + a.len()) =~= (a + b).subrange(0, a.len() as int));
    assert((a + b).subrange(0, a.len() as int) =~= a);
    assert(d.subrange(pos + a.len(), pos + a.len() + b.len()) =~= (a + b).subrange(
        a.len() as int,
        (a.len() + b.len()) as int,
    ));
    assert((a + b).subrange(a.len() as int, (a.len() + b.len()) as int) =~= b);
}

/// Two pieces found one after the other form their concatenation.
pub(crate) proof fn lemma_has_at_join(d: Seq<u8>, pos: int, a: Seq<u8>, b: Seq<u8>)
    requires
        has_at(d, pos, a),
        has_at(d, pos + a.len(), b),
    ensures
        has_at(d, pos, a + b),
{
    assert(d.subrange(pos, pos + a.len() + b.len()) =~= a + b);
}

pub(crate) proof fn lemma_u32_le_len(x: u32)
    ensures
        spec_u32_to_le_bytes(x).len() == 4,
{
    lemma_auto_spec_u32_to_from_le_bytes();
}

pub(crate) proof fn lemma_u64_le_len(x: u64)
    ensures
        spec_u64_to_le_bytes(x).len() == 8,
{
    lemma_auto_spec_u64_to_from_le_bytes();
}

/// Reads a byte string at `pos`; returns it and the position after it.
pub(crate) fn read_blob(data: &[u8], pos: usize) -> (r: Option<(Vec<u8>, usize)>)
    ensures
        r matches Some((v, n)) ==> n == pos + 4 + v@.len() && v@.len() <= u32::MAX && has_at(
            data@,
            pos as int,
            blob_bytes(v@),
        ),
        forall|s: Seq<u8>|
            s.len() <= u32::MAX && has_at(data@, pos as int, blob_bytes(s)) ==> (r matches Some(
                (v, n),
            ) && v@ == s),
{
    let total = data.len();
    let len = match read_u32(data, pos) {
        Some(l) => l,
        None => {
            proof {
                assert forall|s: Seq<u8>|
                    s.len() <= u32::MAX && has_at(data@, pos as int, blob_bytes(s)) implies false by {
                    lemma_has_at_split(data@, pos as int, spec_u32_to_le_bytes(s.len() as u32), s);
                }
            }
            return None;
        },
    };
    proof {
        lemma_u32_le_len(len);
    }
    let start = pos + 4;
    if (len as usize) > total - start {
        proof {
            assert forall|s: Seq<u8>|
                s.len() <= u32::MAX && has_at(data@, pos as int, blob_bytes(s)) implies false by {
                lemma_u32_le_len(s.len() as u32);
                lemma_has_at_split(data@, pos as int, spec_u32_to_le_bytes(s.len() as u32), s);
            }
        }
        return None;
    }
    let v = copy_range(data, start, len as usize);
    proof {
        lemma_has_at_join(data@, pos as int, spec_u32_to_le_bytes(len), v@);
        assert forall|s: Seq<u8>|
            s.len() <= u32::MAX && has_at(data@, pos as int, blob_bytes(s)) implies v@ == s by {
            lemma_u32_le_len(s.len() as u32);
            lemma_has_at_split(data@, pos as int, spec_u32_to_le_bytes(s.len() as u32), s);
        }
    }
    Some((v, start + len as usize))
}

pub(crate) proof fn lemma_array_unique(d: Seq<u8>, pos: int, a: [u8; 32], b: [u8; 32])
    requires
        has_at(d, pos, a@),
        has_at(d, pos, b@),
    ensures
        a == b,
{
    assert(a@ == b@);
    assert(a =~= b);
}

pub(crate) proof fn lemma_u64_unique(d: Seq<u8>, pos: int, x: u64, y: u64)
    requires
        has_at(d, pos, spec_u64_to_le_bytes(x)),
        has_at(d, pos, spec_u64_to_le_bytes(y)),
    ensures
        x == y,
{
    lemma_auto_spec_u64_to_from_le_bytes();
}

pub(crate) proof fn lemma_key_unique(d: Seq<u8>, pos: int, a: Option<[u8; 32]>, b: Option<[u8; 32]>)
    requires
        has_at(d, pos, key_bytes(a)),
        has_at(d, pos, key_bytes(b)),
    ensures
        a == b,
{
    assert(key_bytes(a)[0] == d[pos]);
    assert(key_bytes(b)[0] == d[pos]);
    if let (Some(ka), Some(kb)) = (a, b) {
        lemma_has_at_split(d, pos, seq![1u8], ka@);
        lemma_has_at_split(d, pos, seq![1u8], kb@);
        lemma_array_unique(d, pos + 1, ka, kb);
    }
}

pub(crate) proof fn lemma_blob_unique(d: Seq<u8>, pos: int, a: Seq<u8>, b: Seq<u8>)
    requires
        a.len() <= u32::MAX,
        b.len() <= u32::MAX,
        has_at(d, pos, blob_bytes(a)),
        has_at(d, pos, blob_bytes(b)),
    ensures
        a == b,
{
    lemma_auto_spec_u32_to_from_le_bytes();
    lemma_has_at_split(d, pos, spec_u32_to_le_bytes(a.len() as u32), a);
    lemma_has_at_split(d, pos, spec_u32_to_le_bytes(b.len() as u32), b);
    assert(spec_u32_to_le_bytes(a.len() as u32) == spec_u32_to_le_bytes(b.len() as u32));
    assert(a.len() == b.len());
}

/// Two's-complement bits of a signed 64-bit integer.
pub open spec fn i64_bits(x: i64) -> u64 {
    if x >= 0 {
        x as u64
    } else {
        (x + 0x1_0000_0000_0000_0000) as u64
    }
}

pub(crate) fn i64_to_bits(x: i64) -> (r: u64)
    ensures
        r == i64_bits(x),
{
    if x >= 0 {
        x as u64
    } else {
        let y = (x + i64::MAX) + 1;
        (y as u64) + 0x8000_0000_0000_0000
    }
}

/// The signed integer with the given two's-complement bits.
pub(crate) fn bits_to_i64(u: u64) -> (r: i64)
    ensures
        i64_bits(r) == u,
{
    if u <= i64::MAX as u64 {
        u as i64
    } else {
        ((u - 0x8000_0000_0000_0000) as i64) - i64::MAX - 1
    }
}

} // verus!
