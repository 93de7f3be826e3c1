use vstd::prelude::*;
use crate::sstable::SSTableFooter;

verus! {

/// Size in bytes of a segment footer: index position, index size and largest
/// write number, each a little-endian `u64`.
pub const FOOTER_SIZE: usize = 24;

/// The number that little-endian bytes spell.
pub open spec fn le_value(b: Seq<u8>) -> nat
    decreases b.len(),
{
    if b.len() == 0 {
        0
    } else {
        b[0] as nat + 256 * le_value(b.drop_first())
    }
}

/// The `n` little-endian bytes of `v` (higher digits are dropped).
pub open spec fn le_bytes(v: nat, n: nat) -> Seq<u8>
    decreases n,
{
    if n == 0 {
        Seq::empty()
    } else {
        seq![(v % 256) as u8] + le_bytes(v / 256, (n - 1) as nat)
    }
}

/// `256` to the power `n`.
pub open spec fn byte_bound(n: nat) -> nat
    decreases n,
{
    if n == 0 {
        1
    } else {
        256 * byte_bound((n - 1) as nat)
    }
}

/// The bytes of a footer.
pub open spec fn footer_bytes(index_pos: u64, index_size: u64, max_write_num: u64) -> Seq<u8> {
    le_bytes(index_pos as nat, 8) + le_bytes(index_size as nat, 8) + le_bytes(max_write_num as nat, 8)
}

/// The index position, index size and largest write number that the last
/// bytes of a file hold.
pub open spec fn footer_fields(file: Seq<u8>) -> (nat, nat, nat) {
    let n = file.len() as int;
    (
        le_value(file.subrange(n - 24, n - 16)),
        le_value(file.subrange(n - 16, n - 8)),
        le_value(file.subrange(n - 8, n)),
    )
}

proof fn lemma_byte_bound_small(m: nat)
    requires
        m <= 8,
    ensures
        byte_bound(m) <= 0x1_0000_0000_0000_0000,
        m < 8 ==> 256 * byte_bound(m) <= 0x1_0000_0000_0000_0000,
{
    reveal_with_fuel(byte_bound, 9);
}

proof fn lemma_le_round_trip(v: nat, n: nat)
    requires
        v < byte_bound(n),
    ensures
        le_bytes(v, n).len() == n,
        le_value(le_bytes(v, n)) == v,
    decreases n,
{
    if n > 0 {
        let b = byte_bound((n - 1) as nat);
        assert(v / 256 < b) by (nonlinear_arith)
            requires
                v < 256 * b,
        ;
        lemma_le_round_trip(v / 256, (n - 1) as nat);
        let s = le_bytes(v, n);
        assert(s.drop_first() =~= le_bytes(v / 256, (n - 1) as nat));
    } else {
        assert(v == 0);
    }
}

/// Appends the eight little-endian bytes of `v`.
fn put_u64_le(out: &mut Vec<u8>, v: u64)
    ensures
        final(out)@ == old(out)@ + le_bytes(v as nat, 8),
{
    let mut x: u64 = v;
    let mut k: usize = 0;
    assert(old(out)@ + le_bytes(v as nat, 8) =~= out@ + le_bytes(x as nat, 8));
    while k < 8
        invariant
            k <= 8,
            old(out)@ + le_bytes(v as nat, 8) == out@ + le_bytes(x as nat, (8 - k) as nat),
        decreases 8 - k,
    {
        let ghost rest = le_bytes(x as nat, (8 - k) as nat);
        assert(rest == seq![(x as nat % 256) as u8] + le_bytes(x as nat / 256, (8 - k - 1) as nat));
        out.push((x % 256) as u8);
        x = x / 256;
        k = k + 1;
        assert(old(out)@ + le_bytes(v as nat, 8) =~= out@ + le_bytes(x as nat, (8 - k) as nat));
    }
    assert(le_bytes(x as nat, 0) =~= Seq::<u8>::empty());
    assert(out@ =~= old(out)@ + le_bytes(v as nat, 8));
}

/// Reads the little-endian `u64` at `at`.
fn get_u64_le(b: &Vec<u8>, at: usize) -> (r: u64)
    requires
        at + 8 <= b@.len(),
    ensures
        r as nat == le_value(b@.subrange(at as int, at + 8)),
{
    let mut v: u64 = 0;
    let mut k: usize = 8;
    assert(b@.subrange(at + 8, at + 8) =~= Seq::<u8>::empty());
    while k > 0
        invariant
            k <= 8,
            at + 8 <= b.len(),
            v as nat == le_value(b@.subrange(at + k, at + 8)),
            (v as nat) < byte_bound((8 - k) as nat),
        decreases k,
    {
        k = k - 1;
        let byte = b[at + k];
        proof {
            let m = (8 - k - 1) as nat;
            let bb = byte_bound(m);
            lemma_byte_bound_small(m);
            assert((v as nat) * 256 + (byte as nat) < 256 * bb) by (nonlinear_arith)
                requires
                    (v as nat) < bb,
                    (byte as nat) < 256,
            ;
            assert(b@.subrange(at + k, at + 8).drop_first() =~= b@.subrange(at + k + 1, at + 8));
        }
        v = v * 256 + byte as u64;
    }
    v
}

/// Encodes a segment footer: index position, index size, largest write number.
pub fn encode_footer(footer: &SSTableFooter, max_write_num: u64) -> (r: Vec<u8>)
    ensures
        r@ == footer_bytes(footer.index_pos, footer.index_size, max_write_num),
{
    let mut out: Vec<u8> = Vec::new();
    put_u64_le(&mut out, footer.index_pos);
    put_u64_le(&mut out, footer.index_size);
    put_u64_le(&mut out, max_write_num);
    assert(out@ =~= footer_bytes(footer.index_pos, footer.index_size, max_write_num));
    out
}

/// Decodes the footer at the end of `file`, with the largest write number;
/// `None` when the file is shorter than a footer.
pub fn decode_footer(file: &Vec<u8>) -> (r: Option<(SSTableFooter, u64)>)
    ensures
        r is None <==> file@.len() < FOOTER_SIZE,
        r matches Some((f, m)) ==> footer_fields(file@) == (f.index_pos as nat, f.index_size as nat, m as nat),
{
    if file.len() < FOOTER_SIZE {
        return None;
    }
    let at = file.len() - FOOTER_SIZE;
    let index_pos = get_u64_le(file, at);
    let index_size = get_u64_le(file, at + 8);
    let max_write_num = get_u64_le(file, at + 16);
    Some((SSTableFooter { index_pos, index_size }, max_write_num))
}

/// Footer round trip: whatever precedes it, a file that ends with an encoded
/// footer gives back the footer's fields.
pub proof fn lemma_footer_round_trip(prefix: Seq<u8>, index_pos: u64, index_size: u64, max_write_num: u64)
    ensures
        footer_fields(prefix + footer_bytes(index_pos, index_size, max_write_num)) == (
            index_pos as nat,
            index_size as nat,
            max_write_num as nat,
        ),
{
    lemma_byte_bound_small(8);
    reveal_with_fuel(byte_bound, 9);
    lemma_le_round_trip(index_pos as nat, 8);
    lemma_le_round_trip(index_size as nat, 8);
    lemma_le_round_trip(max_write_num as nat, 8);
    let file = prefix + footer_bytes(index_pos, index_size, max_write_num);
    let n = file.len() as int;
    assert(file.subrange(n - 24, n - 16) =~= le_bytes(index_pos as nat, 8));
    assert(file.subrange(n - 16, n - 8) =~= le_bytes(index_size as nat, 8));
    assert(file.subrange(n - 8, n) =~= le_bytes(max_write_num as nat, 8));
}

} // verus!
