//! Content hashes of files: 64-bit FNV-1a over the bytes, written as sixteen
//! lower-case hexadecimal digits.
use vstd::prelude::*;

verus! {

/// The FNV-1a offset basis: the state before any byte.
pub const FNV_OFFSET: u64 = 0xcbf2_9ce4_8422_2325u64;

/// The FNV-1a prime.
pub const FNV_PRIME: u64 = 0x0000_0100_0000_01b3u64;

/// One FNV-1a step: the byte is mixed into the state, which is then
/// multiplied by the prime, modulo 2^64.
pub open spec fn fnv1a_step(state: u64, byte: u8) -> u64 {
    (((state ^ (byte as u64)) as nat * FNV_PRIME as nat) % 0x1_0000_0000_0000_0000nat) as u64
}

/// The FNV-1a state after the bytes, in order, starting from `state`.
pub open spec fn fnv1a(state: u64, bytes: Seq<u8>) -> u64
    decreases bytes.len(),
{
    if bytes.len() == 0 {
        state
    } else {
        fnv1a_step(fnv1a(state, bytes.drop_last()), bytes.last())
    }
}

/// The inverse of the FNV-1a prime modulo 2^64.
pub open spec fn fnv_prime_inverse() -> nat {
    0xce96_5057_aff6_957bnat
}

/// Multiplying by the prime modulo 2^64 can be undone.
proof fn lemma_prime_invertible(x: int)
    requires
        0 <= x < 0x1_0000_0000_0000_0000int,
    ensures
        ((x * FNV_PRIME as int) % 0x1_0000_0000_0000_0000int) * fnv_prime_inverse() as int
            % 0x1_0000_0000_0000_0000int == x,
{
    let m: int = 0x1_0000_0000_0000_0000int;
    let p: int = FNV_PRIME as int;
    let inv: int = fnv_prime_inverse() as int;
    let k: int = 0xce96_5059_0fint;
    vstd::arithmetic::div_mod::lemma_mul_mod_noop_left(x * p, inv, m);
    vstd::arithmetic::mul::lemma_mul_is_associative(x, p, inv);
    assert(p * inv == m * k + 1);
    assert(x * (m * k + 1) == m * (x * k) + x) by (nonlinear_arith);
    vstd::arithmetic::div_mod::lemma_mod_multiples_vanish(x * k, x, m);
    vstd::arithmetic::div_mod::lemma_small_mod(x as nat, m as nat);
}

proof fn lemma_step_parts(state: u64, byte: u8)
    ensures
        fnv1a_step(state, byte) as int == ((state ^ (byte as u64)) as int * FNV_PRIME as int)
            % 0x1_0000_0000_0000_0000int,
{
}

/// One step tells its byte apart: from the same state, different bytes give
/// different states. (Every byte counts, whatever its case.)
pub proof fn law_step_distinguishes_bytes(state: u64, b1: u8, b2: u8)
    requires
        b1 != b2,
    ensures
        fnv1a_step(state, b1) != fnv1a_step(state, b2),
{
    let x1 = state ^ (b1 as u64);
    let x2 = state ^ (b2 as u64);
    lemma_prime_invertible(x1 as int);
    lemma_prime_invertible(x2 as int);
    lemma_step_parts(state, b1);
    lemma_step_parts(state, b2);
    assert(x1 != x2) by (bit_vector)
        requires
            x1 == state ^ (b1 as u64),
            x2 == state ^ (b2 as u64),
            b1 != b2,
    ;
}

/// One step tells its state apart: different states give different states
/// after the same byte.
pub proof fn law_step_distinguishes_states(s1: u64, s2: u64, byte: u8)
    requires
        s1 != s2,
    ensures
        fnv1a_step(s1, byte) != fnv1a_step(s2, byte),
{
    let x1 = s1 ^ (byte as u64);
    let x2 = s2 ^ (byte as u64);
    lemma_prime_invertible(x1 as int);
    lemma_prime_invertible(x2 as int);
    lemma_step_parts(s1, byte);
    lemma_step_parts(s2, byte);
    assert(x1 != x2) by (bit_vector)
        requires
            x1 == s1 ^ (byte as u64),
            x2 == s2 ^ (byte as u64),
            s1 != s2,
    ;
}

/// Changing one byte of a text, wherever it stands, changes its hash: a file
/// whose content differs from its backup's in a single byte (a changed letter
/// case included) never hashes as the backup does.
pub proof fn law_one_byte_changes_hash(state: u64, a: Seq<u8>, b1: u8, b2: u8, c: Seq<u8>)
    requires
        b1 != b2,
    ensures
        fnv1a(state, a.push(b1) + c) != fnv1a(state, a.push(b2) + c),
    decreases c.len(),
{
    if c.len() == 0 {
        assert(a.push(b1) + c =~= a.push(b1));
        assert(a.push(b2) + c =~= a.push(b2));
        assert(a.push(b1).drop_last() =~= a);
        assert(a.push(b2).drop_last() =~= a);
        law_step_distinguishes_bytes(fnv1a(state, a), b1, b2);
    } else {
        law_one_byte_changes_hash(state, a, b1, b2, c.drop_last());
        assert((a.push(b1) + c).drop_last() =~= a.push(b1) + c.drop_last());
        assert((a.push(b2) + c).drop_last() =~= a.push(b2) + c.drop_last());
        assert((a.push(b1) + c).last() == c.last());
        assert((a.push(b2) + c).last() == c.last());
        law_step_distinguishes_states(
            fnv1a(state, a.push(b1) + c.drop_last()),
            fnv1a(state, a.push(b2) + c.drop_last()),
            c.last(),
        );
    }
}

/// Feeding the bytes in two parts is feeding them at once.
pub proof fn law_fnv1a_chunks(state: u64, a: Seq<u8>, b: Seq<u8>)
    ensures
        fnv1a(fnv1a(state, a), b) == fnv1a(state, a + b),
    decreases b.len(),
{
    if b.len() == 0 {
        assert(a + b =~= a);
    } else {
        law_fnv1a_chunks(state, a, b.drop_last());
        assert((a + b).drop_last() =~= a + b.drop_last());
        assert((a + b).last() == b.last());
    }
}

/// Mixes the bytes, in order, into an FNV-1a state.
pub fn fnv1a_update(state: u64, bytes: &[u8]) -> (r: u64)
    ensures
        r == fnv1a(state, bytes@),
{
    let mut h = state;
    let mut i: usize = 0;
    while i < bytes.len()
        invariant
            i <= bytes@.len(),
            h == fnv1a(state, bytes@.take(i as int)),
        decreases bytes@.len() - i,
    {
        assert(bytes@.take(i + 1).drop_last() =~= bytes@.take(i as int));
        let mixed = h ^ (bytes[i] as u64);
        h = mixed.wrapping_mul(FNV_PRIME);
        i = i + 1;
    }
    assert(bytes@.take(i as int) =~= bytes@);
    h
}

/// The lower-case hexadecimal digits, by value.
pub open spec fn hex_table() -> Seq<char> {
    seq!['0', '1', '2', '3', '4', '5', '6', '7', '8', '9', 'a', 'b', 'c', 'd', 'e', 'f']
}

/// The lower-case hexadecimal digit of a value below 16.
pub open spec fn hex_digit(d: int) -> char {
    hex_table()[d]
}

/// The last `count` hexadecimal digits of `value`, most significant first.
pub open spec fn hex_digits(value: u64, count: nat) -> Seq<char>
    decreases count,
{
    if count == 0 {
        Seq::empty()
    } else {
        hex_digits(value / 16, (count - 1) as nat).push(hex_digit((value % 16) as int))
    }
}

/// `value` as sixteen lower-case hexadecimal digits, most significant first.
pub fn hex16(value: u64) -> (r: String)
    ensures
        r@ == hex_digits(value, 16),
{
    let digits = "0123456789abcdef";
    proof {
        reveal_strlit("0123456789abcdef");
        assert(digits@ =~= hex_table());
    }
    let mut out = String::new();
    let mut count: u64 = 0;
    let mut rest = value;
    while count < 16
        invariant
            digits@ == hex_table(),
            count <= 16,
            hex_digits(value, 16) == hex_digits(rest, (16 - count) as nat) + out@,
        decreases 16 - count,
    {
        let d = (rest % 16) as usize;
        let digit = digits.substring_char(d, d + 1);
        assert(digit@ =~= seq![hex_digit(d as int)]);
        let ghost before = out@;
        out = String::from_str(digit).concat(out.as_str());
        assert(hex_digits(rest, (16 - count) as nat) == hex_digits(rest / 16, (16 - count - 1) as nat).push(
            hex_digit(d as int),
        ));
        assert(hex_digits(rest / 16, (16 - count - 1) as nat).push(hex_digit(d as int)) + before
            =~= hex_digits(rest / 16, (16 - count - 1) as nat) + out@);
        rest = rest / 16;
        count = count + 1;
    }
    assert(hex_digits(rest, 0) =~= Seq::<char>::empty());
    assert(Seq::<char>::empty() + out@ =~= out@);
    out
}

} // verus!
