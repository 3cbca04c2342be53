use vstd::prelude::*;

use crate::ser::{
    lemma_i64_prefix, lemma_parse_repeat_prefix, lemma_same_prefix_shorter, lemma_same_prefix_skip,
    reads_only_prefix, same_prefix, after_prefix, i64_be_bytes, lemma_i64_roundtrip, lemma_parse_repeat_roundtrip,
    lemma_parse_repeat_step, lemma_repeat_bytes_push, parse_i64_be, parse_repeat, read_i64_be,
    repeat_bytes, write_i64_be, ReadingError,
};
use crate::var_int::{
    lemma_parse_var_int_len, lemma_var_int_prefix, lemma_var_int_roundtrip, parse_var_int, read_var_int,
    var_int_bytes, write_var_int, VarInt,
};

verus! {

/// A set of bit positions kept in 64-bit words: bit `i` is bit `i % 64` of
/// word `i / 64`, counting from the least significant bit.
#[derive(Clone, Debug, PartialEq, Eq, Default)]
pub struct BitSet(pub Vec<i64>);

/// Whether position `i` is set in `words`. Positions past the last word are
/// clear.
pub open spec fn bit_of(words: Seq<i64>, i: int) -> bool {
    0 <= i && i / 64 < words.len() && ((words[i / 64] as u64) >> ((i % 64) as u64)) & 1u64
        == 1u64
}

/// How many positions below `n` are set in `words`.
pub open spec fn ones_below(words: Seq<i64>, n: nat) -> nat
    decreases n,
{
    if n == 0 {
        0
    } else {
        ones_below(words, (n - 1) as nat) + if bit_of(words, n - 1) {
            1nat
        } else {
            0nat
        }
    }
}

/// How one word goes on the wire.
pub open spec fn word_enc() -> spec_fn(i64) -> Seq<u8> {
    |x: i64| i64_be_bytes(x)
}

/// How one word is read.
pub open spec fn word_item() -> spec_fn(Seq<u8>) -> Result<(i64, nat), ReadingError> {
    |t: Seq<u8>| parse_i64_be(t)
}

/// The words of a bit set on the wire: their count as a VarInt, then each word
/// as eight big-endian bytes.
pub open spec fn bit_set_bytes(words: Seq<i64>) -> Seq<u8> {
    var_int_bytes(words.len() as i32) + repeat_bytes(words, word_enc())
}

/// A bit set at the front of `s`. A negative word count is too large.
pub open spec fn parse_bit_set(s: Seq<u8>) -> Result<(Seq<i64>, nat), ReadingError> {
    match parse_var_int(s) {
        Err(e) => Err(e),
        Ok((count, n)) => if count < 0 {
            Err(ReadingError::TooLarge)
        } else {
            after_prefix(
                Seq::empty(),
                n,
                parse_repeat(s.skip(n as int), count as nat, word_item()),
            )
        },
    }
}

/// Reading back the bytes of a bit set gives the same words and takes exactly
/// those bytes, whatever follows them.
pub proof fn lemma_bit_set_roundtrip(words: Seq<i64>, rest: Seq<u8>)
    requires
        words.len() <= i32::MAX,
    ensures
        parse_bit_set(bit_set_bytes(words) + rest) == Ok::<(Seq<i64>, nat), ReadingError>(
            (words, bit_set_bytes(words).len()),
        ),
{
    let body = repeat_bytes(words, word_enc());
    let head = var_int_bytes(words.len() as i32);
    let s = bit_set_bytes(words) + rest;
    lemma_var_int_roundtrip(words.len() as i32, body + rest);
    assert(s =~= head + (body + rest));
    assert(s.skip(head.len() as int) =~= body + rest);
    assert forall|i: int, r: Seq<u8>| 0 <= i < words.len() implies #[trigger] word_item()(
        word_enc()(words[i]) + r,
    ) == Ok::<(i64, nat), ReadingError>((words[i], word_enc()(words[i]).len())) by {
        lemma_i64_roundtrip(words[i], r);
    }
    lemma_parse_repeat_roundtrip(words, rest, word_enc(), word_item());
    assert(Seq::<i64>::empty() + words =~= words);
}

/// A bit set read from the front of `s` takes no more bytes than there are.
pub proof fn lemma_parse_bit_set_len(s: Seq<u8>)
    ensures
        parse_bit_set(s) matches Ok((_, n)) ==> n <= s.len(),
{
    lemma_parse_var_int_len(s);
    if let Ok((count, n)) = parse_var_int(s) {
        if count >= 0 {
            assert forall|t: Seq<u8>| (#[trigger] word_item()(t) matches Ok((_, m)) ==> m
                <= t.len()) by {}
            crate::ser::lemma_parse_repeat_len(s.skip(n as int), count as nat, word_item());
        }
    }
}

impl View for BitSet {
    type V = Seq<i64>;

    open spec fn view(&self) -> Seq<i64> {
        self.0@
    }
}

impl BitSet {
    /// The set whose words are `longs`.
    pub fn from_longs(longs: Vec<i64>) -> (r: BitSet)
        ensures
            r@ == longs@,
    {
        BitSet(longs)
    }

    /// The set of one word whose bits are those of `v`.
    pub fn from_u64(v: u64) -> (r: BitSet)
        ensures
            r@ == seq![v as i64],
    {
        let mut words = Vec::new();
        words.push(v as i64);
        BitSet(words)
    }

    /// The first word as an unsigned integer, or 0 for a set without words.
    pub fn as_u64(&self) -> (r: u64)
        ensures
            r == (if self@.len() == 0 {
                0u64
            } else {
                self@[0] as u64
            }),
    {
        if self.0.len() == 0 {
            0
        } else {
            self.0[0] as u64
        }
    }

    /// Whether position `bit` is set.
    pub fn get_bit(&self, bit: usize) -> (r: bool)
        ensures
            r == bit_of(self@, bit as int),
    {
        let word = bit / 64;
        if word >= self.0.len() {
            false
        } else {
            ((self.0[word] as u64) >> ((bit % 64) as u64)) & 1 == 1
        }
    }

    /// Appends the set to `out`: the word count, then the words.
    pub fn encode(&self, out: &mut Vec<u8>)
        ensures
            final(out)@ == old(out)@ + bit_set_bytes(self@),
    {
        let ghost start = out@;
        write_var_int(out, &VarInt(self.0.len() as i32));
        let ghost head = out@;
        let mut i: usize = 0;
        while i < self.0.len()
            invariant
                i <= self@.len(),
                out@ == head + repeat_bytes(self@.take(i as int), word_enc()),
            decreases self@.len() - i,
        {
            proof {
                lemma_repeat_bytes_push(self@.take(i as int), self@[i as int], word_enc());
                assert(self@.take(i as int).push(self@[i as int]) =~= self@.take(i + 1));
                assert(word_enc()(self@[i as int]) == i64_be_bytes(self@[i as int]));
            }
            write_i64_be(out, self.0[i]);
            i = i + 1;
        }
        assert(self@.take(i as int) =~= self@);
        assert(out@ =~= start + bit_set_bytes(self@));
    }

    /// Reads a set at `data[pos]`: the set and the position just past it.
    pub fn decode(data: &[u8], pos: usize) -> (r: Result<(BitSet, usize), ReadingError>)
        requires
            pos <= data@.len(),
        ensures
            match parse_bit_set(data@.skip(pos as int)) {
                Ok((w, n)) => r matches Ok((v, p)) && v@ == w && p == pos + n,
                Err(e) => r == Err::<(BitSet, usize), ReadingError>(e),
            },
            r matches Ok((_, p)) ==> pos <= p <= data@.len(),
    {
        let ghost s = data@.skip(pos as int);
        let (count, mut p) = match read_var_int(data, pos) {
            Ok(x) => x,
            Err(e) => return Err(e),
        };
        if count.0 < 0 {
            return Err(ReadingError::TooLarge);
        }
        let ghost n0 = (p - pos) as nat;
        let ghost whole = parse_bit_set(s);
        let count = count.0 as usize;
        let mut words: Vec<i64> = Vec::new();
        let mut i: usize = 0;
        while i < count
            invariant
                pos < p <= data@.len(),
                i <= count,
                s == data@.skip(pos as int),
                whole == parse_bit_set(s),
                whole == after_prefix(
                    words@,
                    (p - pos) as nat,
                    parse_repeat(s.skip((p - pos) as int), (count - i) as nat, word_item()),
                ),
            decreases count - i,
        {
            let ghost c = (p - pos) as nat;
            assert(data@.skip(p as int) =~= s.skip(c as int));
            assert(word_item()(s.skip(c as int)) == parse_i64_be(s.skip(c as int)));
            match read_i64_be(data, p) {
                Ok((x, p2)) => {
                    proof {
                        lemma_parse_repeat_step(s, c, (count - i) as nat, words@, word_item());
                    }
                    words.push(x);
                    p = p2;
                },
                Err(e) => {
                    assert(parse_repeat(s.skip(c as int), (count - i) as nat, word_item()) == Err::<
                        (Seq<i64>, nat),
                        ReadingError,
                    >(e));
                    return Err(e);
                },
            }
            i = i + 1;
        }
        assert(words@ + Seq::<i64>::empty() =~= words@);
        Ok((BitSet(words), p))
    }
}

/// A bit set is read from the bytes it takes alone.
pub proof fn lemma_bit_set_prefix(s: Seq<u8>, t: Seq<u8>)
    ensures
        parse_bit_set(s) matches Ok((_, n)) ==> n <= s.len() && (same_prefix(s, t, n)
            ==> parse_bit_set(t) == parse_bit_set(s)),
{
    lemma_var_int_prefix(s, t);
    if let Ok((count, n1)) = parse_var_int(s) {
        if count >= 0 {
            assert forall|a: Seq<u8>, b: Seq<u8>| #[trigger] reads_only_prefix(word_item(), a, b) by {
                lemma_i64_prefix(a, b);
            }
            lemma_parse_repeat_prefix(s.skip(n1 as int), t.skip(n1 as int), count as nat, word_item());
            if let Ok((_, n)) = parse_bit_set(s) {
                if same_prefix(s, t, n) {
                    lemma_same_prefix_shorter(s, t, n, n1);
                    lemma_same_prefix_skip(s, t, n, n1);
                }
            }
        }
    }
}

} // verus!
