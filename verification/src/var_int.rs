use vstd::prelude::*;

use crate::ser::ReadingError;

verus! {

/// A 32-bit signed integer as the protocol writes it: its two's-complement
/// bits in groups of seven, least significant group first, each byte but the
/// last with its high bit set.
#[derive(Clone, Copy, Debug, PartialEq, Eq, Structural)]
pub struct VarInt(pub i32);

/// The most bytes a VarInt takes.
pub const VAR_INT_MAX_SIZE: usize = 5;

/// `128` to the power `n`.
pub open spec fn pow128(n: nat) -> nat
    decreases n,
{
    if n == 0 {
        1
    } else {
        128 * pow128((n - 1) as nat)
    }
}

/// The seven-bit groups of `v`, least significant first, continuation bit set
/// on every byte but the last.
pub open spec fn var_uint_bytes(v: nat) -> Seq<u8>
    decreases v,
{
    if v < 128 {
        seq![v as u8]
    } else {
        seq![(v % 128 + 128) as u8] + var_uint_bytes(v / 128)
    }
}

/// The bytes of `x` as a VarInt.
pub open spec fn var_int_bytes(x: i32) -> Seq<u8> {
    var_uint_bytes((x as u32) as nat)
}

/// Reads seven-bit groups from the front of `s`, at most `budget` bytes:
/// the value they spell and how many bytes it took.
pub open spec fn var_uint_prefix(s: Seq<u8>, budget: nat) -> Result<(nat, nat), ReadingError>
    decreases budget,
{
    if budget == 0 {
        Err(ReadingError::TooLarge)
    } else if s.len() == 0 {
        Err(ReadingError::Incomplete)
    } else if s[0] < 128 {
        Ok((s[0] as nat, 1))
    } else {
        match var_uint_prefix(s.drop_first(), (budget - 1) as nat) {
            Ok((v, n)) => Ok((((s[0] - 128) + 128 * v) as nat, n + 1)),
            Err(e) => Err(e),
        }
    }
}

/// The VarInt at the front of `s` and how many bytes it took. Bits past the
/// 32nd, which only a fifth byte can carry, are dropped.
pub open spec fn parse_var_int(s: Seq<u8>) -> Result<(i32, nat), ReadingError> {
    match var_uint_prefix(s, 5) {
        Ok((v, n)) => Ok((((v % 0x1_0000_0000) as u32) as i32, n)),
        Err(e) => Err(e),
    }
}

proof fn lemma_pow128_positive(n: nat)
    ensures
        pow128(n) >= 1,
    decreases n,
{
    if n > 0 {
        lemma_pow128_positive((n - 1) as nat);
    }
}

/// What `var_uint_prefix` reads is under `128^budget`, and it never takes more
/// bytes than the budget or the input has.
proof fn lemma_var_uint_prefix_bounds(s: Seq<u8>, budget: nat)
    ensures
        var_uint_prefix(s, budget) matches Ok((v, n)) ==> v < pow128(budget) && 1 <= n <= budget
            && n <= s.len(),
    decreases budget,
{
    if budget > 0 && s.len() > 0 && s[0] >= 128 {
        lemma_var_uint_prefix_bounds(s.drop_first(), (budget - 1) as nat);
        if let Ok((v, n)) = var_uint_prefix(s.drop_first(), (budget - 1) as nat) {
            let b = s[0] - 128;
            let p = pow128((budget - 1) as nat);
            assert(b + 128 * v < 128 * p) by (nonlinear_arith)
                requires
                    0 <= b < 128,
                    v < p,
            ;
        }
    } else if budget > 0 && s.len() > 0 {
        lemma_pow128_positive((budget - 1) as nat);
    }
}

/// The groups of `v` take at most `budget` bytes when `v < 128^budget`, and the
/// last of them has its high bit clear.
proof fn lemma_var_uint_bytes_len(v: nat, budget: nat)
    requires
        v < pow128(budget),
        budget >= 1,
    ensures
        1 <= var_uint_bytes(v).len() <= budget,
    decreases v,
{
    if v >= 128 {
        let p = pow128((budget - 1) as nat);
        assert(v / 128 < p) by (nonlinear_arith)
            requires
                v < 128 * p,
        ;
        lemma_var_uint_bytes_len(v / 128, (budget - 1) as nat);
    }
}

/// Reading back the groups of `v`, whatever follows them, gives `v` and their
/// length.
pub proof fn lemma_var_uint_roundtrip(v: nat, budget: nat, rest: Seq<u8>)
    requires
        v < pow128(budget),
        budget >= 1,
    ensures
        var_uint_prefix(var_uint_bytes(v) + rest, budget) == Ok::<(nat, nat), ReadingError>(
            (v, var_uint_bytes(v).len()),
        ),
    decreases v,
{
    let s = var_uint_bytes(v) + rest;
    if v < 128 {
        assert(s[0] == v as u8);
    } else {
        let p = pow128((budget - 1) as nat);
        assert(v / 128 < p) by (nonlinear_arith)
            requires
                v < 128 * p,
        ;
        lemma_var_uint_roundtrip(v / 128, (budget - 1) as nat, rest);
        assert(s.drop_first() =~= var_uint_bytes(v / 128) + rest);
        assert(s[0] == (v % 128 + 128) as u8);
        assert(v % 128 + 128 * (v / 128) == v) by (nonlinear_arith);
    }
}

/// Reading back the bytes of a VarInt gives the same integer, and takes
/// exactly those bytes, whatever follows them.
pub proof fn lemma_var_int_roundtrip(x: i32, rest: Seq<u8>)
    ensures
        parse_var_int(var_int_bytes(x) + rest) == Ok::<(i32, nat), ReadingError>(
            (x, var_int_bytes(x).len()),
        ),
        1 <= var_int_bytes(x).len() <= 5,
{
    let v = (x as u32) as nat;
    assert(pow128(5) == 0x8_0000_0000) by {
        reveal_with_fuel(pow128, 6);
    }
    lemma_var_uint_roundtrip(v, 5, rest);
    lemma_var_uint_bytes_len(v, 5);
    assert(((x as u32) as i32) == x) by (bit_vector);
}

/// A VarInt read from the front of `s` takes between one and five of its bytes.
pub proof fn lemma_parse_var_int_len(s: Seq<u8>)
    ensures
        parse_var_int(s) matches Ok((_, n)) ==> 1 <= n <= 5 && n <= s.len(),
{
    lemma_var_uint_prefix_bounds(s, 5);
}

/// Groups of seven bits read from `data[pos..]`, at most `budget` bytes.
fn read_var_uint(data: &[u8], pos: usize, budget: usize) -> (r: Result<(u64, usize), ReadingError>)
    requires
        pos <= data@.len(),
        budget <= 5,
    ensures
        r is Ok <==> var_uint_prefix(data@.skip(pos as int), budget as nat) is Ok,
        r matches Ok((v, n)) ==> var_uint_prefix(data@.skip(pos as int), budget as nat) == Ok::<
            (nat, nat),
            ReadingError,
        >((v as nat, n as nat)),
        r matches Err(e) ==> var_uint_prefix(data@.skip(pos as int), budget as nat) == Err::<
            (nat, nat),
            ReadingError,
        >(e),
    decreases budget,
{
    let ghost s = data@.skip(pos as int);
    proof {
        lemma_var_uint_prefix_bounds(s, budget as nat);
    }
    if budget == 0 {
        return Err(ReadingError::TooLarge);
    }
    if pos >= data.len() {
        return Err(ReadingError::Incomplete);
    }
    let b = data[pos];
    assert(s[0] == b);
    if b < 128 {
        return Ok((b as u64, 1));
    }
    assert(s.drop_first() =~= data@.skip(pos + 1));
    match read_var_uint(data, pos + 1, budget - 1) {
        Ok((v, n)) => {
            proof {
                lemma_var_uint_prefix_bounds(s.drop_first(), (budget - 1) as nat);
                assert(pow128(4) == 0x1000_0000) by {
                    reveal_with_fuel(pow128, 5);
                }
                assert(pow128((budget - 1) as nat) <= pow128(4)) by {
                    lemma_pow128_monotone((budget - 1) as nat, 4);
                }
            }
            Ok(((b - 128) as u64 + 128 * v, n + 1))
        },
        Err(e) => Err(e),
    }
}

proof fn lemma_pow128_monotone(a: nat, b: nat)
    requires
        a <= b,
    ensures
        pow128(a) <= pow128(b),
    decreases b,
{
    if a < b {
        lemma_pow128_monotone(a, (b - 1) as nat);
    }
}

/// Reads the VarInt that starts at `data[pos]`: the integer and the position
/// just past it.
pub fn read_var_int(data: &[u8], pos: usize) -> (r: Result<(VarInt, usize), ReadingError>)
    requires
        pos <= data@.len(),
    ensures
        match parse_var_int(data@.skip(pos as int)) {
            Ok((x, n)) => r matches Ok((v, p)) && v == VarInt(x) && p == pos + n,
            Err(e) => r == Err::<(VarInt, usize), ReadingError>(e),
        },
        r matches Ok((_, p)) ==> pos < p <= data@.len(),
{
    match read_var_uint(data, pos, VAR_INT_MAX_SIZE) {
        Ok((v, n)) => {
            proof {
                lemma_var_uint_prefix_bounds(data@.skip(pos as int), 5);
                assert(n <= data@.len() - pos);
                assert(data@.len() == data.len());
            }
            let w: u32 = (v % 0x1_0000_0000) as u32;
            let x: i32 = #[verifier::truncate] (w as i32);
            Ok((VarInt(x), pos + n))
        },
        Err(e) => Err(e),
    }
}

/// Appends the bytes of `x` as a VarInt to `out`.
pub fn write_var_int(out: &mut Vec<u8>, x: &VarInt)
    ensures
        final(out)@ == old(out)@ + var_int_bytes(x.0),
{
    let ghost start = out@;
    let mut v: u32 = x.0 as u32;
    while v >= 128
        invariant
            out@ + var_uint_bytes(v as nat) == start + var_int_bytes(x.0),
        decreases v,
    {
        let ghost before = out@;
        out.push((v % 128 + 128) as u8);
        assert(before + var_uint_bytes(v as nat) =~= out@ + var_uint_bytes((v / 128) as nat));
        v = v / 128;
    }
    out.push(v as u8);
    assert(out@ =~= start + var_int_bytes(x.0));
}

/// Seven-bit groups are read from the bytes they take alone.
proof fn lemma_var_uint_prefix_prefix(s: Seq<u8>, t: Seq<u8>, budget: nat)
    ensures
        var_uint_prefix(s, budget) matches Ok((_, n)) ==> n <= s.len() && (
        crate::ser::same_prefix(s, t, n) ==> var_uint_prefix(t, budget) == var_uint_prefix(s, budget)),
    decreases budget,
{
    if budget > 0 && s.len() > 0 {
        if let Ok((_, n)) = var_uint_prefix(s, budget) {
            if crate::ser::same_prefix(s, t, n) {
                crate::ser::lemma_same_prefix_index(s, t, n);
            }
        }
        if s[0] >= 128 {
            lemma_var_uint_prefix_prefix(s.drop_first(), t.drop_first(), (budget - 1) as nat);
            if let Ok((_, n)) = var_uint_prefix(s, budget) {
                if crate::ser::same_prefix(s, t, n) {
                    crate::ser::lemma_same_prefix_skip(s, t, n, 1);
                    assert(s.skip(1) =~= s.drop_first());
                    assert(t.skip(1) =~= t.drop_first());
                }
            }
        }
    }
}

/// A VarInt is read from the bytes it takes alone.
pub proof fn lemma_var_int_prefix(s: Seq<u8>, t: Seq<u8>)
    ensures
        parse_var_int(s) matches Ok((_, n)) ==> n <= s.len() && (crate::ser::same_prefix(s, t, n)
            ==> parse_var_int(t) == parse_var_int(s)),
{
    lemma_var_uint_prefix_prefix(s, t, 5);
}

} // verus!
