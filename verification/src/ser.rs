use vstd::prelude::*;
use vstd::utf8::*;

use crate::var_int::{parse_var_int, read_var_int, var_int_bytes, write_var_int, VarInt};

verus! {

/// Why bytes could not be read as the value that was asked for.
#[derive(Clone, Copy, Debug, PartialEq, Eq, Structural)]
pub enum ReadingError {
    /// The input ended before the value did.
    Incomplete,
    /// A length-prefixed or variable-length value is longer than its bound.
    TooLarge,
    /// The bytes of a string are not valid UTF-8.
    InvalidUtf8,
}

/// Why a value could not be written.
#[derive(Clone, Copy, Debug, PartialEq, Eq, Structural)]
pub enum WritingError {
    /// A string's UTF-8 encoding is longer than the protocol's bound.
    StringTooLong,
}

/// The most bytes of UTF-8 that a protocol string may hold.
pub const MAX_STRING_BYTES: usize = 32767;

/// A boolean on the wire: one byte, 1 for true and 0 for false.
pub open spec fn bool_bytes(b: bool) -> Seq<u8> {
    seq![if b { 1u8 } else { 0u8 }]
}

/// A boolean at the front of `s`: any byte other than 0 reads as true.
pub open spec fn parse_bool(s: Seq<u8>) -> Result<(bool, nat), ReadingError> {
    if s.len() == 0 {
        Err(ReadingError::Incomplete)
    } else {
        Ok((s[0] != 0, 1))
    }
}

/// The eight bytes of `x`, most significant first.
pub open spec fn u64_be_bytes(x: u64) -> Seq<u8> {
    seq![
        (x >> 56) as u8,
        (x >> 48) as u8,
        (x >> 40) as u8,
        (x >> 32) as u8,
        (x >> 24) as u8,
        (x >> 16) as u8,
        (x >> 8) as u8,
        x as u8,
    ]
}

/// The unsigned integer whose big-endian bytes are `s[0..8]`.
pub open spec fn u64_from_be(s: Seq<u8>) -> u64
    recommends
        s.len() >= 8,
{
    (s[0] as u64) << 56 | (s[1] as u64) << 48 | (s[2] as u64) << 40 | (s[3] as u64) << 32 | (
    s[4] as u64) << 24 | (s[5] as u64) << 16 | (s[6] as u64) << 8 | (s[7] as u64)
}

/// A big-endian unsigned 64-bit integer at the front of `s`.
pub open spec fn parse_u64_be(s: Seq<u8>) -> Result<(u64, nat), ReadingError> {
    if s.len() < 8 {
        Err(ReadingError::Incomplete)
    } else {
        Ok((u64_from_be(s), 8))
    }
}

/// A signed 64-bit integer on the wire: its two's-complement bits, big-endian.
pub open spec fn i64_be_bytes(x: i64) -> Seq<u8> {
    u64_be_bytes(x as u64)
}

/// A big-endian signed 64-bit integer at the front of `s`.
pub open spec fn parse_i64_be(s: Seq<u8>) -> Result<(i64, nat), ReadingError> {
    if s.len() < 8 {
        Err(ReadingError::Incomplete)
    } else {
        Ok((u64_from_be(s) as i64, 8))
    }
}

/// `n` raw bytes at the front of `s`.
pub open spec fn parse_fixed(s: Seq<u8>, n: nat) -> Result<(Seq<u8>, nat), ReadingError> {
    if s.len() < n {
        Err(ReadingError::Incomplete)
    } else {
        Ok((s.take(n as int), n))
    }
}

/// A string on the wire: the length of its UTF-8 encoding as a VarInt, then
/// that encoding.
pub open spec fn string_bytes(s: Seq<char>) -> Seq<u8> {
    var_int_bytes(encode_utf8(s).len() as i32) + encode_utf8(s)
}

/// A string at the front of `s`. A length that is negative or over
/// `MAX_STRING_BYTES` is too large; the bytes must be valid UTF-8.
pub open spec fn parse_string(s: Seq<u8>) -> Result<(Seq<char>, nat), ReadingError> {
    match parse_var_int(s) {
        Err(e) => Err(e),
        Ok((len, n)) => if len < 0 || len > MAX_STRING_BYTES {
            Err(ReadingError::TooLarge)
        } else if s.len() < n + len {
            Err(ReadingError::Incomplete)
        } else if valid_utf8(s.subrange(n as int, n + len)) {
            Ok((decode_utf8(s.subrange(n as int, n + len)), n + len as nat))
        } else {
            Err(ReadingError::InvalidUtf8)
        },
    }
}

/// Appends `bytes` to `out`.
pub fn write_slice(out: &mut Vec<u8>, bytes: &[u8])
    ensures
        final(out)@ == old(out)@ + bytes@,
{
    let ghost start = out@;
    let mut i: usize = 0;
    while i < bytes.len()
        invariant
            i <= bytes@.len(),
            out@ == start + bytes@.take(i as int),
        decreases bytes@.len() - i,
    {
        out.push(bytes[i]);
        i = i + 1;
        assert(out@ =~= start + bytes@.take(i as int));
    }
    assert(bytes@.take(i as int) =~= bytes@);
}

/// Appends a boolean to `out`.
pub fn write_bool(out: &mut Vec<u8>, b: bool)
    ensures
        final(out)@ == old(out)@ + bool_bytes(b),
{
    out.push(if b { 1u8 } else { 0u8 });
    assert(out@ =~= old(out)@ + bool_bytes(b));
}

/// Appends `x` as eight big-endian bytes to `out`.
pub fn write_u64_be(out: &mut Vec<u8>, x: u64)
    ensures
        final(out)@ == old(out)@ + u64_be_bytes(x),
{
    out.push((x >> 56) as u8);
    out.push((x >> 48) as u8);
    out.push((x >> 40) as u8);
    out.push((x >> 32) as u8);
    out.push((x >> 24) as u8);
    out.push((x >> 16) as u8);
    out.push((x >> 8) as u8);
    out.push(x as u8);
    assert(out@ =~= old(out)@ + u64_be_bytes(x));
}

/// Appends the two's-complement bits of `x`, big-endian, to `out`.
pub fn write_i64_be(out: &mut Vec<u8>, x: i64)
    ensures
        final(out)@ == old(out)@ + i64_be_bytes(x),
{
    write_u64_be(out, x as u64);
}

/// Appends a string, its UTF-8 length first, to `out`. A string whose UTF-8
/// encoding is longer than `MAX_STRING_BYTES` is refused and nothing is
/// written.
pub fn write_string(out: &mut Vec<u8>, s: &str) -> (r: Result<(), WritingError>)
    ensures
        encode_utf8(s@).len() <= MAX_STRING_BYTES ==> r is Ok && final(out)@ == old(out)@
            + string_bytes(s@),
        encode_utf8(s@).len() > MAX_STRING_BYTES ==> r == Err::<(), WritingError>(
            WritingError::StringTooLong,
        ) && final(out)@ == old(out)@,
{
    let bytes = s.as_bytes();
    if bytes.len() > MAX_STRING_BYTES {
        return Err(WritingError::StringTooLong);
    }
    write_var_int(out, &VarInt(bytes.len() as i32));
    write_slice(out, bytes);
    assert(out@ =~= old(out)@ + string_bytes(s@));
    Ok(())
}

/// Reads a boolean at `data[pos]`.
pub fn read_bool(data: &[u8], pos: usize) -> (r: Result<(bool, usize), ReadingError>)
    requires
        pos <= data@.len(),
    ensures
        match parse_bool(data@.skip(pos as int)) {
            Ok((b, n)) => r matches Ok((v, p)) && v == b && p == pos + n,
            Err(e) => r == Err::<(bool, usize), ReadingError>(e),
        },
{
    if pos >= data.len() {
        return Err(ReadingError::Incomplete);
    }
    Ok((data[pos] != 0, pos + 1))
}

/// Reads eight big-endian bytes at `data[pos]` as an unsigned integer.
pub fn read_u64_be(data: &[u8], pos: usize) -> (r: Result<(u64, usize), ReadingError>)
    requires
        pos <= data@.len(),
    ensures
        match parse_u64_be(data@.skip(pos as int)) {
            Ok((x, n)) => r matches Ok((v, p)) && v == x && p == pos + n,
            Err(e) => r == Err::<(u64, usize), ReadingError>(e),
        },
{
    if data.len() - pos < 8 {
        return Err(ReadingError::Incomplete);
    }
    let ghost s = data@.skip(pos as int);
    assert(s[0] == data[pos as int] && s[1] == data[pos + 1] && s[2] == data[pos + 2] && s[3]
        == data[pos + 3] && s[4] == data[pos + 4] && s[5] == data[pos + 5] && s[6] == data[pos
        + 6] && s[7] == data[pos + 7]);
    let x = (data[pos] as u64) << 56 | (data[pos + 1] as u64) << 48 | (data[pos + 2] as u64) << 40
        | (data[pos + 3] as u64) << 32 | (data[pos + 4] as u64) << 24 | (data[pos + 5] as u64)
        << 16 | (data[pos + 6] as u64) << 8 | (data[pos + 7] as u64);
    Ok((x, pos + 8))
}

/// Reads eight big-endian bytes at `data[pos]` as a two's-complement integer.
pub fn read_i64_be(data: &[u8], pos: usize) -> (r: Result<(i64, usize), ReadingError>)
    requires
        pos <= data@.len(),
    ensures
        match parse_i64_be(data@.skip(pos as int)) {
            Ok((x, n)) => r matches Ok((v, p)) && v == x && p == pos + n,
            Err(e) => r == Err::<(i64, usize), ReadingError>(e),
        },
{
    match read_u64_be(data, pos) {
        Ok((x, p)) => Ok((x as i64, p)),
        Err(e) => Err(e),
    }
}

/// Reads `n` raw bytes at `data[pos]`.
pub fn read_fixed(data: &[u8], pos: usize, n: usize) -> (r: Result<(Vec<u8>, usize), ReadingError>)
    requires
        pos <= data@.len(),
    ensures
        match parse_fixed(data@.skip(pos as int), n as nat) {
            Ok((b, m)) => r matches Ok((v, p)) && v@ == b && p == pos + m,
            Err(e) => r == Err::<(Vec<u8>, usize), ReadingError>(e),
        },
{
    if data.len() - pos < n {
        return Err(ReadingError::Incomplete);
    }
    let v = vstd::slice::slice_to_vec(vstd::slice::slice_subrange(data, pos, pos + n));
    assert(v@ =~= data@.skip(pos as int).take(n as int));
    Ok((v, pos + n))
}

/// `String::from_utf8`: the string that the bytes encode, or nothing when
/// they are not valid UTF-8. Claims that std accepts exactly the valid UTF-8
/// sequences and decodes them as UTF-8 prescribes.
#[verifier::external_body]
fn string_from_utf8(bytes: Vec<u8>) -> (r: Option<String>)
    ensures
        r is Some <==> valid_utf8(bytes@),
        r matches Some(s) ==> s@ == decode_utf8(bytes@),
{
    String::from_utf8(bytes).ok()
}

/// Reads a length-prefixed UTF-8 string at `data[pos]`.
pub fn read_string(data: &[u8], pos: usize) -> (r: Result<(String, usize), ReadingError>)
    requires
        pos <= data@.len(),
    ensures
        match parse_string(data@.skip(pos as int)) {
            Ok((s, n)) => r matches Ok((v, p)) && v@ == s && p == pos + n,
            Err(e) => r == Err::<(String, usize), ReadingError>(e),
        },
        r matches Ok((_, p)) ==> pos <= p <= data@.len(),
{
    let ghost s = data@.skip(pos as int);
    let (len, p) = match read_var_int(data, pos) {
        Ok(x) => x,
        Err(e) => return Err(e),
    };
    if len.0 < 0 || len.0 > MAX_STRING_BYTES as i32 {
        return Err(ReadingError::TooLarge);
    }
    let n = len.0 as usize;
    if data.len() - p < n {
        return Err(ReadingError::Incomplete);
    }
    let (bytes, q) = match read_fixed(data, p, n) {
        Ok(x) => x,
        Err(e) => return Err(e),
    };
    assert(bytes@ =~= s.subrange((p - pos) as int, (p - pos) + n));
    match string_from_utf8(bytes) {
        Some(text) => Ok((text, q)),
        None => Err(ReadingError::InvalidUtf8),
    }
}

/// Reading back a boolean gives the same value and takes one byte.
pub proof fn lemma_bool_roundtrip(b: bool, rest: Seq<u8>)
    ensures
        parse_bool(bool_bytes(b) + rest) == Ok::<(bool, nat), ReadingError>((b, 1)),
{
    assert((bool_bytes(b) + rest)[0] == bool_bytes(b)[0]);
}

/// Reading back eight big-endian bytes gives the same unsigned integer.
pub proof fn lemma_u64_roundtrip(x: u64, rest: Seq<u8>)
    ensures
        parse_u64_be(u64_be_bytes(x) + rest) == Ok::<(u64, nat), ReadingError>((x, 8)),
{
    let s = u64_be_bytes(x) + rest;
    let b0 = s[0];
    let b1 = s[1];
    let b2 = s[2];
    let b3 = s[3];
    let b4 = s[4];
    let b5 = s[5];
    let b6 = s[6];
    let b7 = s[7];
    assert(((b0 as u64) << 56 | (b1 as u64) << 48 | (b2 as u64) << 40 | (b3 as u64) << 32 | (
    b4 as u64) << 24 | (b5 as u64) << 16 | (b6 as u64) << 8 | (b7 as u64)) == x) by (bit_vector)
        requires
            b0 == (x >> 56) as u8,
            b1 == (x >> 48) as u8,
            b2 == (x >> 40) as u8,
            b3 == (x >> 32) as u8,
            b4 == (x >> 24) as u8,
            b5 == (x >> 16) as u8,
            b6 == (x >> 8) as u8,
            b7 == x as u8,
    ;
}

/// Reading back eight big-endian bytes gives the same signed integer.
pub proof fn lemma_i64_roundtrip(x: i64, rest: Seq<u8>)
    ensures
        parse_i64_be(i64_be_bytes(x) + rest) == Ok::<(i64, nat), ReadingError>((x, 8)),
{
    lemma_u64_roundtrip(x as u64, rest);
    assert((x as u64) as i64 == x) by (bit_vector);
}

/// Reading back a written string gives the same characters and takes exactly
/// its bytes, whatever follows them.
pub proof fn lemma_string_roundtrip(s: Seq<char>, rest: Seq<u8>)
    requires
        encode_utf8(s).len() <= MAX_STRING_BYTES,
    ensures
        parse_string(string_bytes(s) + rest) == Ok::<(Seq<char>, nat), ReadingError>(
            (s, string_bytes(s).len()),
        ),
{
    let e = encode_utf8(s);
    let len = e.len() as i32;
    let head = var_int_bytes(len);
    crate::var_int::lemma_var_int_roundtrip(len, e + rest);
    assert(string_bytes(s) + rest =~= head + (e + rest));
    let all = string_bytes(s) + rest;
    assert(all.subrange(head.len() as int, (head.len() + e.len()) as int) =~= e);
    encode_utf8_valid_utf8(s);
    encode_utf8_decode_utf8(s);
}

/// The encodings of the items of `xs`, one after the other.
pub open spec fn repeat_bytes<A>(xs: Seq<A>, enc: spec_fn(A) -> Seq<u8>) -> Seq<u8>
    decreases xs.len(),
{
    if xs.len() == 0 {
        Seq::empty()
    } else {
        enc(xs[0]) + repeat_bytes(xs.drop_first(), enc)
    }
}

/// `count` items read one after the other from the front of `s` with `item`:
/// the items and how many bytes they took together.
pub open spec fn parse_repeat<A>(
    s: Seq<u8>,
    count: nat,
    item: spec_fn(Seq<u8>) -> Result<(A, nat), ReadingError>,
) -> Result<(Seq<A>, nat), ReadingError>
    decreases count,
{
    if count == 0 {
        Ok((Seq::empty(), 0))
    } else {
        match item(s) {
            Err(e) => Err(e),
            Ok((a, n)) => match parse_repeat(s.skip(n as int), (count - 1) as nat, item) {
                Err(e) => Err(e),
                Ok((rest, m)) => Ok((seq![a] + rest, n + m)),
            },
        }
    }
}

/// `r` with `acc` put before its items and `c` added to its length.
pub open spec fn after_prefix<A>(acc: Seq<A>, c: nat, r: Result<(Seq<A>, nat), ReadingError>) -> Result<
    (Seq<A>, nat),
    ReadingError,
> {
    match r {
        Ok((xs, m)) => Ok((acc + xs, c + m)),
        Err(e) => Err(e),
    }
}

/// A list read with `parse_repeat` has as many items as were asked for, and
/// took no more bytes than there were.
pub proof fn lemma_parse_repeat_len<A>(
    s: Seq<u8>,
    count: nat,
    item: spec_fn(Seq<u8>) -> Result<(A, nat), ReadingError>,
)
    requires
        forall|t: Seq<u8>| #[trigger] item(t) matches Ok((_, n)) ==> n <= t.len(),
    ensures
        parse_repeat(s, count, item) matches Ok((xs, n)) ==> xs.len() == count && n <= s.len(),
    decreases count,
{
    if count > 0 {
        if let Ok((a, n)) = item(s) {
            lemma_parse_repeat_len(s.skip(n as int), (count - 1) as nat, item);
        }
    }
}

/// Nothing put before the items of `r` leaves it as it is.
pub proof fn lemma_after_prefix_empty<A>(r: Result<(Seq<A>, nat), ReadingError>)
    ensures
        after_prefix(Seq::<A>::empty(), 0, r) == r,
{
    if let Ok((xs, m)) = r {
        assert(Seq::<A>::empty() + xs =~= xs);
    }
}

/// Appending one item's encoding extends the encoding of the list.
pub proof fn lemma_repeat_bytes_push<A>(xs: Seq<A>, x: A, enc: spec_fn(A) -> Seq<u8>)
    ensures
        repeat_bytes(xs.push(x), enc) == repeat_bytes(xs, enc) + enc(x),
    decreases xs.len(),
{
    if xs.len() == 0 {
        assert(xs.push(x).drop_first() =~= Seq::<A>::empty());
        assert(repeat_bytes(Seq::<A>::empty(), enc) =~= Seq::<u8>::empty());
        assert(repeat_bytes(xs.push(x), enc) =~= enc(x));
    } else {
        assert(xs.push(x).drop_first() =~= xs.drop_first().push(x));
        lemma_repeat_bytes_push(xs.drop_first(), x, enc);
        assert(repeat_bytes(xs.push(x), enc) =~= repeat_bytes(xs, enc) + enc(x));
    }
}

/// One more item read after `c` bytes and the items `acc`: the invariant of a
/// loop that reads a list item by item.
pub proof fn lemma_parse_repeat_step<A>(
    s: Seq<u8>,
    c: nat,
    k: nat,
    acc: Seq<A>,
    item: spec_fn(Seq<u8>) -> Result<(A, nat), ReadingError>,
)
    requires
        k > 0,
        c <= s.len(),
        item(s.skip(c as int)) matches Ok((_, n)) && n <= s.len() - c,
    ensures
        ({
            let (a, n) = item(s.skip(c as int)).unwrap();
            after_prefix(acc, c, parse_repeat(s.skip(c as int), k, item)) == after_prefix(
                acc.push(a),
                c + n,
                parse_repeat(s.skip((c + n) as int), (k - 1) as nat, item),
            )
        }),
{
    let (a, n) = item(s.skip(c as int)).unwrap();
    assert(s.skip(c as int).skip(n as int) =~= s.skip((c + n) as int));
    match parse_repeat(s.skip((c + n) as int), (k - 1) as nat, item) {
        Ok((rest, m)) => {
            assert(acc + (seq![a] + rest) =~= acc.push(a) + rest);
        },
        Err(_) => {},
    }
}

/// Reading back the encodings of `xs` with a reader that reads back each item
/// gives `xs` and takes exactly those bytes.
pub proof fn lemma_parse_repeat_roundtrip<A>(
    xs: Seq<A>,
    rest: Seq<u8>,
    enc: spec_fn(A) -> Seq<u8>,
    item: spec_fn(Seq<u8>) -> Result<(A, nat), ReadingError>,
)
    requires
        forall|i: int, r: Seq<u8>|
            0 <= i < xs.len() ==> #[trigger] item(enc(xs[i]) + r) == Ok::<(A, nat), ReadingError>(
                (xs[i], enc(xs[i]).len()),
            ),
    ensures
        parse_repeat(repeat_bytes(xs, enc) + rest, xs.len(), item) == Ok::<
            (Seq<A>, nat),
            ReadingError,
        >((xs, repeat_bytes(xs, enc).len())),
    decreases xs.len(),
{
    if xs.len() > 0 {
        let tail = xs.drop_first();
        assert forall|i: int, r: Seq<u8>| 0 <= i < tail.len() implies #[trigger] item(
            enc(tail[i]) + r,
        ) == Ok::<(A, nat), ReadingError>((tail[i], enc(tail[i]).len())) by {
            assert(0 <= i + 1 < xs.len());
            assert(tail[i] == xs[i + 1]);
        }
        lemma_parse_repeat_roundtrip(tail, rest, enc, item);
        let s = repeat_bytes(xs, enc) + rest;
        let r2 = repeat_bytes(tail, enc) + rest;
        assert(s =~= enc(xs[0]) + r2);
        assert(item(enc(xs[0]) + r2) == Ok::<(A, nat), ReadingError>(
            (xs[0], enc(xs[0]).len()),
        ));
        assert(s.skip(enc(xs[0]).len() as int) =~= r2);
        assert(seq![xs[0]] + tail =~= xs);
        assert(parse_repeat(s.skip(enc(xs[0]).len() as int), (xs.len() - 1) as nat, item)
            == Ok::<(Seq<A>, nat), ReadingError>((tail, repeat_bytes(tail, enc).len())));
        assert(repeat_bytes(xs, enc).len() == enc(xs[0]).len() + repeat_bytes(tail, enc).len());
    } else {
        assert(xs =~= Seq::<A>::empty());
    }
}

/// Whether `s` and `t` both have at least `n` bytes, and the same first `n`.
pub open spec fn same_prefix(s: Seq<u8>, t: Seq<u8>, n: nat) -> bool {
    n <= s.len() && n <= t.len() && s.take(n as int) == t.take(n as int)
}

/// Whether reading `s` with `p` takes no more bytes than `s` has, and reads
/// the same from any `t` that starts with the bytes it took.
pub open spec fn reads_only_prefix<A>(
    p: spec_fn(Seq<u8>) -> Result<(A, nat), ReadingError>,
    s: Seq<u8>,
    t: Seq<u8>,
) -> bool {
    p(s) matches Ok((_, n)) ==> n <= s.len() && (same_prefix(s, t, n) ==> p(t) == p(s))
}

/// Agreeing on the first `n` bytes means agreeing on fewer.
pub proof fn lemma_same_prefix_shorter(s: Seq<u8>, t: Seq<u8>, n: nat, m: nat)
    requires
        same_prefix(s, t, n),
        m <= n,
    ensures
        same_prefix(s, t, m),
{
    assert(s.take(m as int) =~= s.take(n as int).take(m as int));
    assert(t.take(m as int) =~= t.take(n as int).take(m as int));
}

/// Agreeing on the first `n` bytes means agreeing, after the first `c` of
/// them, on the `n - c` that follow.
pub proof fn lemma_same_prefix_skip(s: Seq<u8>, t: Seq<u8>, n: nat, c: nat)
    requires
        same_prefix(s, t, n),
        c <= n,
    ensures
        same_prefix(s.skip(c as int), t.skip(c as int), (n - c) as nat),
{
    assert forall|i: int| 0 <= i < n - c implies s.skip(c as int)[i] == t.skip(c as int)[i] by {
        assert(s.take(n as int)[c + i] == t.take(n as int)[c + i]);
    }
    assert(s.skip(c as int).take(n - c) =~= t.skip(c as int).take(n - c));
}

/// Agreeing on the first `n` bytes means agreeing on each of them.
pub proof fn lemma_same_prefix_index(s: Seq<u8>, t: Seq<u8>, n: nat)
    requires
        same_prefix(s, t, n),
    ensures
        forall|i: int| 0 <= i < n ==> s[i] == t[i],
{
    assert forall|i: int| 0 <= i < n implies s[i] == t[i] by {
        assert(s.take(n as int)[i] == t.take(n as int)[i]);
    }
}

/// A boolean is read from its one byte alone.
pub proof fn lemma_bool_prefix(s: Seq<u8>, t: Seq<u8>)
    ensures
        parse_bool(s) matches Ok((_, n)) ==> n <= s.len() && (same_prefix(s, t, n) ==> parse_bool(t)
            == parse_bool(s)),
{
    if s.len() > 0 && same_prefix(s, t, 1) {
        lemma_same_prefix_index(s, t, 1);
    }
}

/// A big-endian 64-bit integer is read from its eight bytes alone.
pub proof fn lemma_i64_prefix(s: Seq<u8>, t: Seq<u8>)
    ensures
        parse_i64_be(s) matches Ok((_, n)) ==> n <= s.len() && (same_prefix(s, t, n)
            ==> parse_i64_be(t) == parse_i64_be(s)),
{
    if s.len() >= 8 && same_prefix(s, t, 8) {
        lemma_same_prefix_index(s, t, 8);
        assert(u64_from_be(s) == u64_from_be(t));
    }
}

/// A string is read from its length and its bytes alone.
pub proof fn lemma_string_prefix(s: Seq<u8>, t: Seq<u8>)
    ensures
        parse_string(s) matches Ok((_, n)) ==> n <= s.len() && (same_prefix(s, t, n)
            ==> parse_string(t) == parse_string(s)),
{
    crate::var_int::lemma_var_int_prefix(s, t);
    if let Ok((_, n)) = parse_string(s) {
        if same_prefix(s, t, n) {
            let (len, n1) = parse_var_int(s).unwrap();
            lemma_same_prefix_shorter(s, t, n, n1);
            lemma_same_prefix_index(s, t, n);
            assert(t.subrange(n1 as int, n1 + len) =~= s.subrange(n1 as int, n1 + len));
        }
    }
}

/// A list is read from the bytes its items take alone, when each item is.
pub proof fn lemma_parse_repeat_prefix<A>(
    s: Seq<u8>,
    t: Seq<u8>,
    count: nat,
    item: spec_fn(Seq<u8>) -> Result<(A, nat), ReadingError>,
)
    requires
        forall|a: Seq<u8>, b: Seq<u8>| #[trigger] reads_only_prefix(item, a, b),
    ensures
        parse_repeat(s, count, item) matches Ok((_, n)) ==> n <= s.len() && (same_prefix(s, t, n)
            ==> parse_repeat(t, count, item) == parse_repeat(s, count, item)),
    decreases count,
{
    if count > 0 {
        assert(reads_only_prefix(item, s, t));
        if let Ok((_, n1)) = item(s) {
            lemma_parse_repeat_prefix(s.skip(n1 as int), t.skip(n1 as int), (count - 1) as nat, item);
            if let Ok((_, n)) = parse_repeat(s, count, item) {
                if same_prefix(s, t, n) {
                    lemma_same_prefix_shorter(s, t, n, n1);
                    lemma_same_prefix_skip(s, t, n, n1);
                }
            }
        }
    }
}

} // verus!
