use vstd::prelude::*;

use crate::bit_set::{ones_below, BitSet};
use crate::ser::{
    lemma_parse_repeat_prefix, lemma_same_prefix_index, lemma_same_prefix_shorter,
    lemma_same_prefix_skip, reads_only_prefix, same_prefix, after_prefix, lemma_after_prefix_empty, lemma_parse_repeat_roundtrip, lemma_parse_repeat_step, lemma_repeat_bytes_push,
    parse_repeat, read_fixed, repeat_bytes, write_slice, ReadingError,
};
use crate::var_int::{
    lemma_var_int_prefix, lemma_var_int_roundtrip, parse_var_int, read_var_int,
    var_int_bytes, write_var_int, VarInt,
};

verus! {

/// The sections that a legacy light update can describe: bits 0 to 17 of its
/// masks.
pub const LEGACY_SECTION_COUNT: usize = 18;

/// The byte contents of each array.
pub open spec fn arrays_view(arrays: Seq<Vec<u8>>) -> Seq<Seq<u8>> {
    arrays.map_values(|a: Vec<u8>| a@)
}

/// One light array on the wire: its length as a VarInt, then its bytes.
pub open spec fn array_bytes(a: Seq<u8>) -> Seq<u8> {
    var_int_bytes(a.len() as i32) + a
}

/// How one light array goes on the wire.
pub open spec fn array_enc() -> spec_fn(Seq<u8>) -> Seq<u8> {
    |a: Seq<u8>| array_bytes(a)
}

/// One light array at the front of `s`. A negative length is too large.
pub open spec fn parse_array(s: Seq<u8>) -> Result<(Seq<u8>, nat), ReadingError> {
    match parse_var_int(s) {
        Err(e) => Err(e),
        Ok((len, n)) => if len < 0 {
            Err(ReadingError::TooLarge)
        } else if s.len() < n + len {
            Err(ReadingError::Incomplete)
        } else {
            Ok((s.subrange(n as int, n + len), n + len as nat))
        },
    }
}

/// How one light array is read.
pub open spec fn array_item() -> spec_fn(Seq<u8>) -> Result<(Seq<u8>, nat), ReadingError> {
    |t: Seq<u8>| parse_array(t)
}

/// A counted list of light arrays, as releases from 1.17 on write it: the
/// count as a VarInt, then each array.
pub open spec fn arrays_bytes(arrays: Seq<Seq<u8>>) -> Seq<u8> {
    var_int_bytes(arrays.len() as i32) + repeat_bytes(arrays, array_enc())
}

/// A counted list of light arrays at the front of `s`. A negative count is
/// too large.
pub open spec fn parse_arrays(s: Seq<u8>) -> Result<(Seq<Seq<u8>>, nat), ReadingError> {
    match parse_var_int(s) {
        Err(e) => Err(e),
        Ok((count, n)) => if count < 0 {
            Err(ReadingError::TooLarge)
        } else {
            after_prefix(
                Seq::empty(),
                n,
                parse_repeat(s.skip(n as int), count as nat, array_item()),
            )
        },
    }
}

/// How many of `arrays` a legacy update sends for `mask`: one for each of
/// the first 18 bits that is set, as long as arrays remain.
pub open spec fn legacy_array_count(mask: Seq<i64>, arrays_len: nat) -> nat {
    if arrays_len < ones_below(mask, LEGACY_SECTION_COUNT as nat) {
        arrays_len
    } else {
        ones_below(mask, LEGACY_SECTION_COUNT as nat)
    }
}

/// The light arrays of a legacy update: no count, one array for each set bit
/// among the first 18 of the mask, for as long as arrays remain.
pub open spec fn legacy_arrays_bytes(mask: Seq<i64>, arrays: Seq<Seq<u8>>) -> Seq<u8> {
    repeat_bytes(arrays.take(legacy_array_count(mask, arrays.len()) as int), array_enc())
}

/// The light arrays of a legacy update at the front of `s`: one for each set
/// bit among the first 18 of the mask.
pub open spec fn parse_legacy_arrays(s: Seq<u8>, mask: Seq<i64>) -> Result<
    (Seq<Seq<u8>>, nat),
    ReadingError,
> {
    parse_repeat(s, ones_below(mask, LEGACY_SECTION_COUNT as nat), array_item())
}

/// Set bits below `a` are no more than set bits below `b` when `a <= b`.
pub proof fn lemma_ones_below_monotone(words: Seq<i64>, a: nat, b: nat)
    requires
        a <= b,
    ensures
        ones_below(words, a) <= ones_below(words, b),
    decreases b,
{
    if a < b {
        lemma_ones_below_monotone(words, a, (b - 1) as nat);
    }
}

/// Reading back one light array gives the same bytes.
pub proof fn lemma_array_roundtrip(a: Seq<u8>, rest: Seq<u8>)
    requires
        a.len() <= i32::MAX,
    ensures
        parse_array(array_bytes(a) + rest) == Ok::<(Seq<u8>, nat), ReadingError>(
            (a, array_bytes(a).len()),
        ),
{
    let head = var_int_bytes(a.len() as i32);
    lemma_var_int_roundtrip(a.len() as i32, a + rest);
    let s = array_bytes(a) + rest;
    assert(s =~= head + (a + rest));
    assert(s.subrange(head.len() as int, (head.len() + a.len()) as int) =~= a);
}

/// Reading back a list of arrays, each no longer than `i32::MAX`, with
/// `array_item` gives the same arrays.
proof fn lemma_array_items_roundtrip(arrays: Seq<Seq<u8>>, rest: Seq<u8>)
    requires
        forall|i: int| 0 <= i < arrays.len() ==> #[trigger] arrays[i].len() <= i32::MAX,
    ensures
        parse_repeat(repeat_bytes(arrays, array_enc()) + rest, arrays.len(), array_item())
            == Ok::<(Seq<Seq<u8>>, nat), ReadingError>(
            (arrays, repeat_bytes(arrays, array_enc()).len()),
        ),
{
    assert forall|i: int, r: Seq<u8>| 0 <= i < arrays.len() implies #[trigger] array_item()(
        array_enc()(arrays[i]) + r,
    ) == Ok::<(Seq<u8>, nat), ReadingError>((arrays[i], array_enc()(arrays[i]).len())) by {
        lemma_array_roundtrip(arrays[i], r);
    }
    lemma_parse_repeat_roundtrip(arrays, rest, array_enc(), array_item());
}

/// Reading back a counted list of arrays gives the same arrays.
pub proof fn lemma_arrays_roundtrip(arrays: Seq<Seq<u8>>, rest: Seq<u8>)
    requires
        arrays.len() <= i32::MAX,
        forall|i: int| 0 <= i < arrays.len() ==> #[trigger] arrays[i].len() <= i32::MAX,
    ensures
        parse_arrays(arrays_bytes(arrays) + rest) == Ok::<(Seq<Seq<u8>>, nat), ReadingError>(
            (arrays, arrays_bytes(arrays).len()),
        ),
{
    let body = repeat_bytes(arrays, array_enc());
    let head = var_int_bytes(arrays.len() as i32);
    let s = arrays_bytes(arrays) + rest;
    lemma_var_int_roundtrip(arrays.len() as i32, body + rest);
    assert(s =~= head + (body + rest));
    assert(s.skip(head.len() as int) =~= body + rest);
    lemma_array_items_roundtrip(arrays, rest);
    assert(Seq::<Seq<u8>>::empty() + arrays =~= arrays);
}

/// Reading back the arrays of a legacy update, when there is one array for
/// each of the first 18 set bits of the mask, gives the same arrays.
pub proof fn lemma_legacy_arrays_roundtrip(mask: Seq<i64>, arrays: Seq<Seq<u8>>, rest: Seq<u8>)
    requires
        arrays.len() == ones_below(mask, LEGACY_SECTION_COUNT as nat),
        forall|i: int| 0 <= i < arrays.len() ==> #[trigger] arrays[i].len() <= i32::MAX,
    ensures
        parse_legacy_arrays(legacy_arrays_bytes(mask, arrays) + rest, mask) == Ok::<
            (Seq<Seq<u8>>, nat),
            ReadingError,
        >((arrays, legacy_arrays_bytes(mask, arrays).len())),
{
    assert(arrays.take(arrays.len() as int) =~= arrays);
    lemma_array_items_roundtrip(arrays, rest);
}

/// A copy of `a`.
pub(crate) fn copy_bytes(a: &Vec<u8>) -> (r: Vec<u8>)
    ensures
        r@ == a@,
{
    vstd::slice::slice_to_vec(a.as_slice())
}

/// Appends one light array, its length first, to `out`.
pub fn write_array(out: &mut Vec<u8>, a: &Vec<u8>)
    ensures
        final(out)@ == old(out)@ + array_bytes(a@),
{
    write_var_int(out, &VarInt(a.len() as i32));
    write_slice(out, a.as_slice());
    assert(out@ =~= old(out)@ + array_bytes(a@));
}

/// Reads one light array at `data[pos]`.
pub fn read_array(data: &[u8], pos: usize) -> (r: Result<(Vec<u8>, usize), ReadingError>)
    requires
        pos <= data@.len(),
    ensures
        match parse_array(data@.skip(pos as int)) {
            Ok((a, n)) => r matches Ok((v, p)) && v@ == a && p == pos + n,
            Err(e) => r == Err::<(Vec<u8>, usize), ReadingError>(e),
        },
        r matches Ok((_, p)) ==> pos <= p <= data@.len(),
{
    let ghost s = data@.skip(pos as int);
    let (len, p) = match read_var_int(data, pos) {
        Ok(x) => x,
        Err(e) => return Err(e),
    };
    if len.0 < 0 {
        return Err(ReadingError::TooLarge);
    }
    let n = len.0 as usize;
    if data.len() - p < n {
        return Err(ReadingError::Incomplete);
    }
    let (bytes, q) = match read_fixed(data, p, n) {
        Ok(x) => x,
        Err(e) => return Err(e),
    };
    assert(bytes@ =~= s.subrange((p - pos) as int, (p - pos) + n));
    Ok((bytes, q))
}

/// Appends a counted list of light arrays to `out`.
pub fn write_arrays(out: &mut Vec<u8>, arrays: &Vec<Vec<u8>>)
    ensures
        final(out)@ == old(out)@ + arrays_bytes(arrays_view(arrays@)),
{
    let ghost start = out@;
    let ghost view = arrays_view(arrays@);
    write_var_int(out, &VarInt(arrays.len() as i32));
    let ghost head = out@;
    let mut i: usize = 0;
    while i < arrays.len()
        invariant
            i <= arrays@.len(),
            view == arrays_view(arrays@),
            out@ == head + repeat_bytes(view.take(i as int), array_enc()),
        decreases arrays@.len() - i,
    {
        proof {
            lemma_repeat_bytes_push(view.take(i as int), view[i as int], array_enc());
            assert(view.take(i as int).push(view[i as int]) =~= view.take(i + 1));
        }
        write_array(out, &arrays[i]);
        i = i + 1;
    }
    assert(view.take(i as int) =~= view);
    assert(out@ =~= start + arrays_bytes(view));
}

/// Reads a counted list of light arrays at `data[pos]`.
pub fn read_arrays(data: &[u8], pos: usize) -> (r: Result<(Vec<Vec<u8>>, usize), ReadingError>)
    requires
        pos <= data@.len(),
    ensures
        match parse_arrays(data@.skip(pos as int)) {
            Ok((a, n)) => r matches Ok((v, p)) && arrays_view(v@) == a && p == pos + n,
            Err(e) => r == Err::<(Vec<Vec<u8>>, usize), ReadingError>(e),
        },
        r matches Ok((_, p)) ==> pos <= p <= data@.len(),
{
    let ghost s = data@.skip(pos as int);
    let ghost whole = parse_arrays(s);
    let (count, mut p) = match read_var_int(data, pos) {
        Ok(x) => x,
        Err(e) => return Err(e),
    };
    if count.0 < 0 {
        return Err(ReadingError::TooLarge);
    }
    let count = count.0 as usize;
    let mut arrays: Vec<Vec<u8>> = Vec::new();
    let mut i: usize = 0;
    while i < count
        invariant
            pos < p <= data@.len(),
            i <= count,
            s == data@.skip(pos as int),
            whole == parse_arrays(s),
            whole == after_prefix(
                arrays_view(arrays@),
                (p - pos) as nat,
                parse_repeat(s.skip((p - pos) as int), (count - i) as nat, array_item()),
            ),
        decreases count - i,
    {
        let ghost c = (p - pos) as nat;
        assert(data@.skip(p as int) =~= s.skip(c as int));
        assert(array_item()(s.skip(c as int)) == parse_array(s.skip(c as int)));
        match read_array(data, p) {
            Ok((a, p2)) => {
                proof {
                    lemma_parse_repeat_step(
                        s,
                        c,
                        (count - i) as nat,
                        arrays_view(arrays@),
                        array_item(),
                    );
                }
                let ghost before = arrays@;
                arrays.push(a);
                assert(arrays_view(arrays@) =~= arrays_view(before).push(a@));
                p = p2;
            },
            Err(e) => {
                assert(parse_repeat(s.skip(c as int), (count - i) as nat, array_item()) == Err::<
                    (Seq<Seq<u8>>, nat),
                    ReadingError,
                >(e));
                return Err(e);
            },
        }
        i = i + 1;
    }
    assert(arrays_view(arrays@) + Seq::<Seq<u8>>::empty() =~= arrays_view(arrays@));
    Ok((arrays, p))
}

/// Appends the arrays of a legacy update for `mask` to `out`: for each of the
/// first 18 bits of the mask that is set, the next array, while arrays remain.
pub fn write_legacy_arrays(out: &mut Vec<u8>, mask: &BitSet, arrays: &Vec<Vec<u8>>)
    ensures
        final(out)@ == old(out)@ + legacy_arrays_bytes(mask@, arrays_view(arrays@)),
{
    let ghost start = out@;
    let ghost view = arrays_view(arrays@);
    let mut array_idx: usize = 0;
    let mut i: usize = 0;
    while i < LEGACY_SECTION_COUNT
        invariant
            i <= LEGACY_SECTION_COUNT,
            view == arrays_view(arrays@),
            array_idx == (if arrays@.len() < ones_below(mask@, i as nat) {
                arrays@.len()
            } else {
                ones_below(mask@, i as nat)
            }),
            out@ == start + repeat_bytes(view.take(array_idx as int), array_enc()),
        decreases LEGACY_SECTION_COUNT - i,
    {
        if mask.get_bit(i) && array_idx < arrays.len() {
            proof {
                lemma_repeat_bytes_push(
                    view.take(array_idx as int),
                    view[array_idx as int],
                    array_enc(),
                );
                assert(view.take(array_idx as int).push(view[array_idx as int]) =~= view.take(
                    array_idx + 1,
                ));
            }
            write_array(out, &arrays[array_idx]);
            array_idx = array_idx + 1;
        }
        i = i + 1;
    }
}

/// Reads the arrays of a legacy update for `mask` at `data[pos]`: one for each
/// of the first 18 bits of the mask that is set.
pub fn read_legacy_arrays(data: &[u8], pos: usize, mask: &BitSet) -> (r: Result<
    (Vec<Vec<u8>>, usize),
    ReadingError,
>)
    requires
        pos <= data@.len(),
    ensures
        match parse_legacy_arrays(data@.skip(pos as int), mask@) {
            Ok((a, n)) => r matches Ok((v, p)) && arrays_view(v@) == a && p == pos + n,
            Err(e) => r == Err::<(Vec<Vec<u8>>, usize), ReadingError>(e),
        },
        r matches Ok((_, p)) ==> pos <= p <= data@.len(),
{
    let ghost s = data@.skip(pos as int);
    let ghost total = ones_below(mask@, LEGACY_SECTION_COUNT as nat);
    let ghost whole = parse_legacy_arrays(s, mask@);
    let mut arrays: Vec<Vec<u8>> = Vec::new();
    let mut p = pos;
    let mut i: usize = 0;
    proof {
        assert(s.skip(0) =~= s);
        assert(arrays_view(arrays@) =~= Seq::<Seq<u8>>::empty());
        lemma_after_prefix_empty(parse_legacy_arrays(s, mask@));
    }
    while i < LEGACY_SECTION_COUNT
        invariant
            pos <= p <= data@.len(),
            i <= LEGACY_SECTION_COUNT,
            s == data@.skip(pos as int),
            total == ones_below(mask@, LEGACY_SECTION_COUNT as nat),
            ones_below(mask@, i as nat) <= total,
            whole == parse_legacy_arrays(s, mask@),
            whole == after_prefix(
                arrays_view(arrays@),
                (p - pos) as nat,
                parse_repeat(
                    s.skip((p - pos) as int),
                    (total - ones_below(mask@, i as nat)) as nat,
                    array_item(),
                ),
            ),
        decreases LEGACY_SECTION_COUNT - i,
    {
        proof {
            lemma_ones_below_monotone(mask@, (i + 1) as nat, LEGACY_SECTION_COUNT as nat);
        }
        if mask.get_bit(i) {
            let ghost c = (p - pos) as nat;
            let ghost k = (total - ones_below(mask@, i as nat)) as nat;
            assert(data@.skip(p as int) =~= s.skip(c as int));
            assert(array_item()(s.skip(c as int)) == parse_array(s.skip(c as int)));
            match read_array(data, p) {
                Ok((a, p2)) => {
                    proof {
                        lemma_parse_repeat_step(s, c, k, arrays_view(arrays@), array_item());
                    }
                    let ghost before = arrays@;
                    arrays.push(a);
                    assert(arrays_view(arrays@) =~= arrays_view(before).push(a@));
                    p = p2;
                },
                Err(e) => {
                    assert(parse_repeat(s.skip(c as int), k, array_item()) == Err::<
                        (Seq<Seq<u8>>, nat),
                        ReadingError,
                    >(e));
                    return Err(e);
                },
            }
        }
        i = i + 1;
    }
    assert(arrays_view(arrays@) + Seq::<Seq<u8>>::empty() =~= arrays_view(arrays@));
    Ok((arrays, p))
}

/// A light array is read from its length and its bytes alone.
pub proof fn lemma_array_prefix(s: Seq<u8>, t: Seq<u8>)
    ensures
        parse_array(s) matches Ok((_, n)) ==> n <= s.len() && (same_prefix(s, t, n)
            ==> parse_array(t) == parse_array(s)),
{
    lemma_var_int_prefix(s, t);
    if let Ok((_, n)) = parse_array(s) {
        if same_prefix(s, t, n) {
            let (len, n1) = parse_var_int(s).unwrap();
            lemma_same_prefix_shorter(s, t, n, n1);
            lemma_same_prefix_index(s, t, n);
            assert(t.subrange(n1 as int, n1 + len) =~= s.subrange(n1 as int, n1 + len));
        }
    }
}

/// Each light array of a list is read from the bytes it takes alone.
pub proof fn lemma_array_item_prefix()
    ensures
        forall|a: Seq<u8>, b: Seq<u8>| #[trigger] reads_only_prefix(array_item(), a, b),
{
    assert forall|a: Seq<u8>, b: Seq<u8>| #[trigger] reads_only_prefix(array_item(), a, b) by {
        lemma_array_prefix(a, b);
    }
}

/// A counted list of light arrays is read from the bytes it takes alone.
pub proof fn lemma_arrays_prefix(s: Seq<u8>, t: Seq<u8>)
    ensures
        parse_arrays(s) matches Ok((_, n)) ==> n <= s.len() && (same_prefix(s, t, n)
            ==> parse_arrays(t) == parse_arrays(s)),
{
    lemma_var_int_prefix(s, t);
    if let Ok((count, n1)) = parse_var_int(s) {
        if count >= 0 {
            lemma_array_item_prefix();
            lemma_parse_repeat_prefix(s.skip(n1 as int), t.skip(n1 as int), count as nat, array_item());
            if let Ok((_, n)) = parse_arrays(s) {
                if same_prefix(s, t, n) {
                    lemma_same_prefix_shorter(s, t, n, n1);
                    lemma_same_prefix_skip(s, t, n, n1);
                }
            }
        }
    }
}

/// The light arrays of a legacy update are read from the bytes they take
/// alone.
pub proof fn lemma_legacy_arrays_prefix(s: Seq<u8>, t: Seq<u8>, mask: Seq<i64>)
    ensures
        parse_legacy_arrays(s, mask) matches Ok((_, n)) ==> n <= s.len() && (same_prefix(s, t, n)
            ==> parse_legacy_arrays(t, mask) == parse_legacy_arrays(s, mask)),
{
    lemma_array_item_prefix();
    lemma_parse_repeat_prefix(s, t, ones_below(mask, LEGACY_SECTION_COUNT as nat), array_item());
}

} // verus!
