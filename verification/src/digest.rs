//! SHA-256 digests and their hexadecimal spelling.
use vstd::prelude::*;
use vstd::utf8::encode_utf8;
use crate::text::push_char;

verus! {

/// The SHA-256 digest of a byte string (FIPS 180-4). The `sha2` crate computes it;
/// it depends on the bytes alone.
pub uninterp spec fn sha256_of(data: Seq<u8>) -> Seq<u8>;

/// Computes the SHA-256 digest of a byte string.
///
/// Calls `sha2::Sha256::digest`. The contract claims that the result is the
/// digest of exactly the given bytes, named `sha256_of`, and that it is 32 bytes
/// long, as `Sha256`'s output size `U32` fixes.
#[verifier::external_body]
pub(crate) fn sha256(data: &[u8]) -> (res: Vec<u8>)
    ensures
        res@ == sha256_of(data@),
        res@.len() == 32,
{
    <sha2::Sha256 as sha2::Digest>::digest(data).to_vec()
}

/// The lowercase hexadecimal digit for a value below 16.
pub open spec fn hex_digit(v: int) -> char {
    if v < 10 {
        ((48 + v) as u32) as char
    } else {
        ((87 + v) as u32) as char
    }
}

/// Each byte as two lowercase hexadecimal digits, high half first: what `{:x}`
/// writes for a digest.
pub open spec fn hex_lower(data: Seq<u8>) -> Seq<char>
    decreases data.len(),
{
    if data.len() == 0 {
        Seq::<char>::empty()
    } else {
        hex_lower(data.drop_last()) + seq![
            hex_digit(data.last() as int / 16),
            hex_digit(data.last() as int % 16),
        ]
    }
}

/// The eight bytes of a `u64`, least significant first: `u64::to_le_bytes`.
pub open spec fn le_bytes(x: u64) -> Seq<u8> {
    Seq::new(8, |i: int| ((x as int / pow256(i)) % 256) as u8)
}

/// 256 to the power `i`.
pub open spec fn pow256(i: int) -> int
    decreases i,
{
    if i <= 0 {
        1
    } else {
        256 * pow256(i - 1)
    }
}

/// The hexadecimal spelling has two digits per byte.
pub proof fn lemma_hex_lower_len(data: Seq<u8>)
    ensures
        hex_lower(data).len() == 2 * data.len(),
    decreases data.len(),
{
    if data.len() > 0 {
        lemma_hex_lower_len(data.drop_last());
    }
}

/// The hexadecimal digit of a value below 16.
fn hex_char(v: u8) -> (c: char)
    requires
        v < 16,
    ensures
        c == hex_digit(v as int),
{
    if v < 10 {
        ((v + 48u8) as char)
    } else {
        ((v + 87u8) as char)
    }
}

/// Spells bytes in lowercase hexadecimal.
pub fn to_hex_lower(data: &[u8]) -> (res: String)
    ensures
        res@ == hex_lower(data@),
{
    let mut res = String::new();
    let mut i: usize = 0;
    assert(data@.take(0) =~= Seq::<u8>::empty());
    while i < data.len()
        invariant
            i <= data.len(),
            res@ == hex_lower(data@.take(i as int)),
        decreases data.len() - i,
    {
        let b = data[i];
        push_char(&mut res, hex_char(b / 16));
        push_char(&mut res, hex_char(b % 16));
        assert(data@.take(i + 1).drop_last() =~= data@.take(i as int));
        assert(res@ =~= hex_lower(data@.take(i + 1)));
        i = i + 1;
    }
    assert(data@.take(data.len() as int) =~= data@);
    res
}

/// Appends the little-endian bytes of a `u64`.
pub fn push_le_bytes(out: &mut Vec<u8>, x: u64)
    ensures
        final(out)@ == old(out)@ + le_bytes(x),
{
    let ghost start = out@;
    let mut v: u64 = x;
    let mut i: usize = 0;
    while i < 8
        invariant
            i <= 8,
            out@.len() == start.len() + i,
            out@.take(start.len() as int) == start,
            v as int == x as int / pow256(i as int),
            forall|j: int| 0 <= j < i ==> #[trigger] out@[start.len() + j] == le_bytes(x)[j],
        decreases 8 - i,
    {
        proof {
            assert(pow256(i + 1) == 256 * pow256(i as int));
            assert(pow256(i as int) > 0) by {
                lemma_pow256_positive(i as int);
            }
            vstd::arithmetic::div_mod::lemma_div_denominator(x as int, pow256(i as int), 256);
        }
        out.push((v % 256) as u8);
        v = v / 256;
        i = i + 1;
    }
    assert forall|j: int| 0 <= j < out@.len() implies out@[j] == (start + le_bytes(x))[j] by {
        if j < start.len() {
            assert(out@[j] == out@.take(start.len() as int)[j]);
        } else {
            assert(out@[start.len() + (j - start.len())] == le_bytes(x)[j - start.len()]);
        }
    }
    assert(out@ =~= start + le_bytes(x));
}

proof fn lemma_pow256_positive(i: int)
    ensures
        pow256(i) > 0,
    decreases i,
{
    if i > 0 {
        lemma_pow256_positive(i - 1);
    }
}

/// The bytes hashed for a candidate's id: the plugin's id, a zero byte, the path.
pub open spec fn id_input(plugin: Seq<char>, path: Seq<char>) -> Seq<u8> {
    encode_utf8(plugin) + seq![0u8] + encode_utf8(path)
}

/// A candidate's id: the first twelve hexadecimal digits of the SHA-256 digest of
/// its plugin's id, a zero byte and its canonical path.
pub open spec fn candidate_id_of(plugin: Seq<char>, path: Seq<char>) -> Seq<char> {
    hex_lower(sha256_of(id_input(plugin, path))).take(12)
}

/// The id of a candidate found by `plugin` at `path`.
pub fn candidate_id(plugin: &str, path: &str) -> (res: String)
    ensures
        res@ == candidate_id_of(plugin@, path@),
        res@.len() == 12,
{
    let mut input: Vec<u8> = Vec::new();
    let p = plugin.as_bytes();
    let q = path.as_bytes();
    let mut i: usize = 0;
    while i < p.len()
        invariant
            i <= p.len(),
            input@ == p@.take(i as int),
        decreases p.len() - i,
    {
        input.push(p[i]);
        assert(p@.take(i + 1) =~= p@.take(i as int).push(p@[i as int]));
        i = i + 1;
    }
    input.push(0u8);
    let ghost head = input@;
    let mut j: usize = 0;
    while j < q.len()
        invariant
            j <= q.len(),
            input@ == head + q@.take(j as int),
        decreases q.len() - j,
    {
        input.push(q[j]);
        assert(q@.take(j + 1) =~= q@.take(j as int).push(q@[j as int]));
        j = j + 1;
    }
    assert(p@.take(p.len() as int) =~= p@);
    assert(q@.take(q.len() as int) =~= q@);
    assert(input@ =~= id_input(plugin@, path@));
    let digest = sha256(input.as_slice());
    let hex = to_hex_lower(digest.as_slice());
    proof {
        lemma_hex_lower_len(digest@);
    }
    let mut out = String::new();
    let cs = crate::text::chars_of(hex.as_str());
    let mut k: usize = 0;
    while k < 12
        invariant
            k <= 12,
            cs@ == hex_lower(digest@),
            cs@.len() == 64,
            out@ == cs@.take(k as int),
        decreases 12 - k,
    {
        push_char(&mut out, cs[k]);
        assert(cs@.take(k + 1) =~= cs@.take(k as int).push(cs@[k as int]));
        k = k + 1;
    }
    out
}

} // verus!
