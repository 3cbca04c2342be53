use vstd::prelude::*;

use crate::bit_set::{
    bit_of, bit_set_bytes, lemma_bit_set_prefix, lemma_bit_set_roundtrip, lemma_parse_bit_set_len, ones_below, parse_bit_set, BitSet,
};
use crate::light_arrays::{
    arrays_bytes, arrays_view, copy_bytes, legacy_arrays_bytes, lemma_arrays_prefix,
    lemma_arrays_roundtrip, lemma_legacy_arrays_prefix,
    lemma_legacy_arrays_roundtrip,
    parse_arrays, parse_legacy_arrays, read_arrays, read_legacy_arrays, write_arrays,
    write_legacy_arrays,
};
use crate::ser::{
    lemma_bool_prefix, lemma_parse_repeat_prefix, lemma_same_prefix_shorter, lemma_same_prefix_skip,
    reads_only_prefix, same_prefix, after_prefix, bool_bytes, lemma_after_prefix_empty, lemma_bool_roundtrip, lemma_parse_repeat_len,
    lemma_parse_repeat_roundtrip, lemma_parse_repeat_step, lemma_repeat_bytes_push, parse_bool,
    parse_repeat, read_bool, repeat_bytes, write_bool, ReadingError,
};
use crate::var_int::{
    lemma_parse_var_int_len, lemma_var_int_prefix, lemma_var_int_roundtrip, parse_var_int, read_var_int, var_int_bytes, write_var_int, VarInt,
};
use crate::version::JavaMinecraftVersion;

verus! {

/// Light levels of one chunk column: which sections carry sky and block light
/// arrays, which are known to be dark, and the arrays themselves.
#[derive(Debug, PartialEq, Eq, Clone, Default)]
pub struct LightData {
    pub trust_edges: bool,
    pub sky_light_mask: BitSet,
    pub block_light_mask: BitSet,
    pub empty_sky_light_mask: BitSet,
    pub empty_block_light_mask: BitSet,
    pub sky_light_arrays: Vec<Vec<u8>>,
    pub block_light_arrays: Vec<Vec<u8>>,
}

/// The contents of a `LightData`, as plain values.
pub struct LightDataModel {
    pub trust_edges: bool,
    pub sky_light_mask: Seq<i64>,
    pub block_light_mask: Seq<i64>,
    pub empty_sky_light_mask: Seq<i64>,
    pub empty_block_light_mask: Seq<i64>,
    pub sky_light_arrays: Seq<Seq<u8>>,
    pub block_light_arrays: Seq<Seq<u8>>,
}

impl View for LightData {
    type V = LightDataModel;

    open spec fn view(&self) -> LightDataModel {
        LightDataModel {
            trust_edges: self.trust_edges,
            sky_light_mask: self.sky_light_mask@,
            block_light_mask: self.block_light_mask@,
            empty_sky_light_mask: self.empty_sky_light_mask@,
            empty_block_light_mask: self.empty_block_light_mask@,
            sky_light_arrays: arrays_view(self.sky_light_arrays@),
            block_light_arrays: arrays_view(self.block_light_arrays@),
        }
    }
}

/// Sent by the server to update the block and sky light of one chunk column
/// without sending the whole chunk.
#[derive(Debug, PartialEq, Eq, Clone)]
pub struct CLightUpdate {
    pub chunk_x: VarInt,
    pub chunk_z: VarInt,
    pub light_data: LightData,
}

/// The most mask words that release 26.2 accepts.
pub const MAX_MASK_WORDS_26_2: usize = 12;

/// Releases 1.16 to 1.19.4 send the trust-edges flag.
pub open spec fn sends_trust_edges(v: JavaMinecraftVersion) -> bool {
    JavaMinecraftVersion::V_1_16.rank() <= v.rank() <= JavaMinecraftVersion::V_1_19_4.rank()
}

/// From release 1.17 on, masks are bit sets and light arrays are counted.
pub open spec fn uses_bit_set_masks(v: JavaMinecraftVersion) -> bool {
    v.rank() >= JavaMinecraftVersion::V_1_17.rank()
}

/// The first word of a mask as an unsigned integer, 0 for an empty mask.
pub open spec fn first_word(mask: Seq<i64>) -> u64 {
    if mask.len() == 0 {
        0u64
    } else {
        mask[0] as u64
    }
}

/// How a mask goes on the wire: a bit set from 1.17 on, before that the low
/// 32 bits of its first word as a VarInt.
pub open spec fn mask_bytes(v: JavaMinecraftVersion, mask: Seq<i64>) -> Seq<u8> {
    if uses_bit_set_masks(v) {
        bit_set_bytes(mask)
    } else {
        var_int_bytes(first_word(mask) as i32)
    }
}

/// A mask at the front of `s`: a bit set from 1.17 on, before that a VarInt
/// taken, sign-extended, as the single word of the mask.
pub open spec fn parse_mask(v: JavaMinecraftVersion, s: Seq<u8>) -> Result<
    (Seq<i64>, nat),
    ReadingError,
> {
    if uses_bit_set_masks(v) {
        parse_bit_set(s)
    } else {
        match parse_var_int(s) {
            Ok((x, n)) => Ok((seq![(x as u64) as i64], n)),
            Err(e) => Err(e),
        }
    }
}

/// How a mask goes on the wire in `v`.
pub open spec fn mask_enc(v: JavaMinecraftVersion) -> spec_fn(Seq<i64>) -> Seq<u8> {
    |m: Seq<i64>| mask_bytes(v, m)
}

/// How a mask is read in `v`.
pub open spec fn mask_item(v: JavaMinecraftVersion) -> spec_fn(Seq<u8>) -> Result<
    (Seq<i64>, nat),
    ReadingError,
> {
    |s: Seq<u8>| parse_mask(v, s)
}

/// The words of each mask.
pub open spec fn masks_view(masks: Seq<BitSet>) -> Seq<Seq<i64>> {
    masks.map_values(|b: BitSet| b@)
}

/// A mask read in any release takes no more bytes than there are.
proof fn lemma_mask_item_len(v: JavaMinecraftVersion)
    ensures
        forall|t: Seq<u8>| #[trigger] mask_item(v)(t) matches Ok((_, n)) ==> n <= t.len(),
{
    assert forall|t: Seq<u8>| (#[trigger] mask_item(v)(t) matches Ok((_, n)) ==> n <= t.len()) by {
        lemma_parse_var_int_len(t);
        lemma_parse_bit_set_len(t);
    }
}

/// The four masks, in the order they go on the wire.
pub open spec fn masks_of(m: LightDataModel) -> Seq<Seq<i64>> {
    seq![m.sky_light_mask, m.block_light_mask, m.empty_sky_light_mask, m.empty_block_light_mask]
}

/// How the light arrays that go with `mask` are written in `v`.
#[verifier::opaque]
pub open spec fn light_arrays_bytes(
    v: JavaMinecraftVersion,
    mask: Seq<i64>,
    arrays: Seq<Seq<u8>>,
) -> Seq<u8> {
    if uses_bit_set_masks(v) {
        arrays_bytes(arrays)
    } else {
        legacy_arrays_bytes(mask, arrays)
    }
}

/// The light arrays that go with `mask`, read in `v`.
#[verifier::opaque]
pub open spec fn parse_light_arrays(v: JavaMinecraftVersion, s: Seq<u8>, mask: Seq<i64>) -> Result<
    (Seq<Seq<u8>>, nat),
    ReadingError,
> {
    if uses_bit_set_masks(v) {
        parse_arrays(s)
    } else {
        parse_legacy_arrays(s, mask)
    }
}

/// The trust-edges flag where release `v` sends it, otherwise nothing.
pub open spec fn trust_edges_bytes(v: JavaMinecraftVersion, t: bool) -> Seq<u8> {
    if sends_trust_edges(v) {
        bool_bytes(t)
    } else {
        Seq::empty()
    }
}

/// Light data as release `v` lays it out: the trust-edges flag where the
/// release has it, the four masks, the sky light arrays, then the block light
/// arrays.
#[verifier::opaque]
pub open spec fn light_data_bytes(m: LightDataModel, v: JavaMinecraftVersion) -> Seq<u8> {
    trust_edges_bytes(v, m.trust_edges) + repeat_bytes(masks_of(m), mask_enc(v)) + light_arrays_bytes(
        v,
        m.sky_light_mask,
        m.sky_light_arrays,
    ) + light_arrays_bytes(v, m.block_light_mask, m.block_light_arrays)
}

/// The trust-edges flag at the front of `s`: read where release `v` sends
/// it, otherwise false and no bytes.
pub open spec fn parse_trust_edges(s: Seq<u8>, v: JavaMinecraftVersion) -> Result<
    (bool, nat),
    ReadingError,
> {
    if sends_trust_edges(v) {
        parse_bool(s)
    } else {
        Ok((false, 0))
    }
}

/// The sky and block light arrays at the front of `s`, for the given sky and
/// block masks.
#[verifier::opaque]
pub open spec fn parse_arrays_pair(
    s: Seq<u8>,
    v: JavaMinecraftVersion,
    sky_mask: Seq<i64>,
    block_mask: Seq<i64>,
) -> Result<((Seq<Seq<u8>>, Seq<Seq<u8>>), nat), ReadingError> {
    match parse_light_arrays(v, s, sky_mask) {
        Err(e) => Err(e),
        Ok((sky, n)) => match parse_light_arrays(v, s.skip(n as int), block_mask) {
            Err(e) => Err(e),
            Ok((block, m)) => Ok(((sky, block), n + m)),
        },
    }
}

/// Everything after the trust-edges flag: the four masks, then the arrays.
/// The result has the masks in the order they were read, then the sky and
/// block arrays.
pub open spec fn parse_light_body(s: Seq<u8>, v: JavaMinecraftVersion) -> Result<
    ((Seq<Seq<i64>>, Seq<Seq<u8>>, Seq<Seq<u8>>), nat),
    ReadingError,
> {
    match parse_repeat(s, 4, mask_item(v)) {
        Err(e) => Err(e),
        Ok((masks, n)) => match parse_arrays_pair(s.skip(n as int), v, masks[0], masks[1]) {
            Err(e) => Err(e),
            Ok(((sky, block), m)) => Ok(((masks, sky, block), n + m)),
        },
    }
}

/// Light data at the front of `s` as release `v` lays it out. Where the
/// release has no trust-edges flag it reads as false.
#[verifier::opaque]
pub open spec fn parse_light_data(s: Seq<u8>, v: JavaMinecraftVersion) -> Result<
    (LightDataModel, nat),
    ReadingError,
> {
    match parse_trust_edges(s, v) {
        Err(e) => Err(e),
        Ok((t, n)) => match parse_light_body(s.skip(n as int), v) {
            Err(e) => Err(e),
            Ok(((masks, sky, block), m)) => Ok(
                (
                    LightDataModel {
                        trust_edges: t,
                        sky_light_mask: masks[0],
                        block_light_mask: masks[1],
                        empty_sky_light_mask: masks[2],
                        empty_block_light_mask: masks[3],
                        sky_light_arrays: sky,
                        block_light_arrays: block,
                    },
                    n + m,
                ),
            ),
        },
    }
}

/// Light data whose counts and lengths all fit the VarInts that carry them.
pub open spec fn light_data_fits(m: LightDataModel) -> bool {
    &&& m.sky_light_mask.len() <= i32::MAX
    &&& m.block_light_mask.len() <= i32::MAX
    &&& m.empty_sky_light_mask.len() <= i32::MAX
    &&& m.empty_block_light_mask.len() <= i32::MAX
    &&& m.sky_light_arrays.len() <= i32::MAX
    &&& m.block_light_arrays.len() <= i32::MAX
    &&& forall|i: int|
        0 <= i < m.sky_light_arrays.len() ==> #[trigger] m.sky_light_arrays[i].len() <= i32::MAX
    &&& forall|i: int|
        0 <= i < m.block_light_arrays.len() ==> #[trigger] m.block_light_arrays[i].len()
            <= i32::MAX
}

/// What a reader of release `v` gets back from `m`: the trust-edges flag only
/// survives where the release sends it.
pub open spec fn as_received(m: LightDataModel, v: JavaMinecraftVersion) -> LightDataModel {
    LightDataModel {
        trust_edges: sends_trust_edges(v) && m.trust_edges,
        sky_light_mask: m.sky_light_mask,
        block_light_mask: m.block_light_mask,
        empty_sky_light_mask: m.empty_sky_light_mask,
        empty_block_light_mask: m.empty_block_light_mask,
        sky_light_arrays: m.sky_light_arrays,
        block_light_arrays: m.block_light_arrays,
    }
}

/// A mask that a legacy update carries unchanged: one word, within the
/// range of a 32-bit integer.
pub open spec fn legacy_mask_fits(mask: Seq<i64>) -> bool {
    mask.len() == 1 && i32::MIN <= mask[0] <= i32::MAX
}

/// Light data that reads back unchanged in release `v`: its counts and
/// lengths fit their VarInts, and before 1.17 each mask is one 32-bit word and
/// each list holds exactly one array for each of the first 18 set bits of its
/// mask.
#[verifier::opaque]
pub open spec fn light_data_reads_back(m: LightDataModel, v: JavaMinecraftVersion) -> bool {
    &&& light_data_fits(m)
    &&& !uses_bit_set_masks(v) ==> {
        &&& legacy_mask_fits(m.sky_light_mask)
        &&& legacy_mask_fits(m.block_light_mask)
        &&& legacy_mask_fits(m.empty_sky_light_mask)
        &&& legacy_mask_fits(m.empty_block_light_mask)
        &&& m.sky_light_arrays.len() == ones_below(m.sky_light_mask, 18)
        &&& m.block_light_arrays.len() == ones_below(m.block_light_mask, 18)
    }
}

proof fn lemma_legacy_mask_roundtrip(v: JavaMinecraftVersion, mask: Seq<i64>, rest: Seq<u8>)
    requires
        !uses_bit_set_masks(v),
        legacy_mask_fits(mask),
    ensures
        parse_mask(v, mask_bytes(v, mask) + rest) == Ok::<(Seq<i64>, nat), ReadingError>(
            (mask, mask_bytes(v, mask).len()),
        ),
{
    let w = mask[0];
    let x = (w as u64) as i32;
    lemma_var_int_roundtrip(x, rest);
    assert((((w as u64) as i32) as u64) as i64 == w) by (bit_vector)
        requires
            i32::MIN <= w <= i32::MAX,
    ;
    assert(seq![(x as u64) as i64] =~= mask);
}

proof fn lemma_arrays_pair_roundtrip(
    v: JavaMinecraftVersion,
    m: LightDataModel,
    rest: Seq<u8>,
)
    requires
        light_data_reads_back(m, v),
    ensures
        ({
            let sb = light_arrays_bytes(v, m.sky_light_mask, m.sky_light_arrays);
            let bb = light_arrays_bytes(v, m.block_light_mask, m.block_light_arrays);
            parse_arrays_pair(sb + (bb + rest), v, m.sky_light_mask, m.block_light_mask) == Ok::<
                ((Seq<Seq<u8>>, Seq<Seq<u8>>), nat),
                ReadingError,
            >(((m.sky_light_arrays, m.block_light_arrays), sb.len() + bb.len()))
        }),
{
    let sb = light_arrays_bytes(v, m.sky_light_mask, m.sky_light_arrays);
    let bb = light_arrays_bytes(v, m.block_light_mask, m.block_light_arrays);
    reveal(light_data_reads_back);
    reveal(parse_arrays_pair);
    reveal(light_arrays_bytes);
    reveal(parse_light_arrays);
    if uses_bit_set_masks(v) {
        lemma_arrays_roundtrip(m.sky_light_arrays, bb + rest);
        lemma_arrays_roundtrip(m.block_light_arrays, rest);
    } else {
        lemma_legacy_arrays_roundtrip(m.sky_light_mask, m.sky_light_arrays, bb + rest);
        lemma_legacy_arrays_roundtrip(m.block_light_mask, m.block_light_arrays, rest);
    }
    assert((sb + (bb + rest)).skip(sb.len() as int) =~= bb + rest);
}

proof fn lemma_masks_roundtrip(v: JavaMinecraftVersion, m: LightDataModel, rest: Seq<u8>)
    requires
        light_data_reads_back(m, v),
    ensures
        parse_repeat(repeat_bytes(masks_of(m), mask_enc(v)) + rest, 4, mask_item(v)) == Ok::<
            (Seq<Seq<i64>>, nat),
            ReadingError,
        >((masks_of(m), repeat_bytes(masks_of(m), mask_enc(v)).len())),
{
    reveal(light_data_reads_back);
    let masks = masks_of(m);
    assert forall|i: int, r: Seq<u8>| 0 <= i < masks.len() implies #[trigger] mask_item(v)(
        mask_enc(v)(masks[i]) + r,
    ) == Ok::<(Seq<i64>, nat), ReadingError>((masks[i], mask_enc(v)(masks[i]).len())) by {
        if uses_bit_set_masks(v) {
            lemma_bit_set_roundtrip(masks[i], r);
        } else {
            lemma_legacy_mask_roundtrip(v, masks[i], r);
        }
    }
    lemma_parse_repeat_roundtrip(masks, rest, mask_enc(v), mask_item(v));
}

proof fn lemma_light_body_roundtrip(v: JavaMinecraftVersion, m: LightDataModel, rest: Seq<u8>)
    requires
        light_data_reads_back(m, v),
    ensures
        ({
            let mb = repeat_bytes(masks_of(m), mask_enc(v));
            let sb = light_arrays_bytes(v, m.sky_light_mask, m.sky_light_arrays);
            let bb = light_arrays_bytes(v, m.block_light_mask, m.block_light_arrays);
            parse_light_body(mb + (sb + (bb + rest)), v) == Ok::<
                ((Seq<Seq<i64>>, Seq<Seq<u8>>, Seq<Seq<u8>>), nat),
                ReadingError,
            >(
                (
                    (masks_of(m), m.sky_light_arrays, m.block_light_arrays),
                    mb.len() + sb.len() + bb.len(),
                ),
            )
        }),
{
    let masks = masks_of(m);
    let mb = repeat_bytes(masks, mask_enc(v));
    let sb = light_arrays_bytes(v, m.sky_light_mask, m.sky_light_arrays);
    let bb = light_arrays_bytes(v, m.block_light_mask, m.block_light_arrays);
    lemma_masks_roundtrip(v, m, sb + (bb + rest));
    assert((mb + (sb + (bb + rest))).skip(mb.len() as int) =~= sb + (bb + rest));
    lemma_arrays_pair_roundtrip(v, m, rest);
}

proof fn lemma_trust_edges_roundtrip(v: JavaMinecraftVersion, t: bool, rest: Seq<u8>)
    ensures
        parse_trust_edges(trust_edges_bytes(v, t) + rest, v) == Ok::<(bool, nat), ReadingError>(
            (sends_trust_edges(v) && t, trust_edges_bytes(v, t).len()),
        ),
{
    if sends_trust_edges(v) {
        lemma_bool_roundtrip(t, rest);
    }
}

proof fn lemma_parse_light_data_parts(
    s: Seq<u8>,
    v: JavaMinecraftVersion,
    t: bool,
    n: nat,
    masks: Seq<Seq<i64>>,
    sky: Seq<Seq<u8>>,
    block: Seq<Seq<u8>>,
    k: nat,
)
    requires
        parse_trust_edges(s, v) == Ok::<(bool, nat), ReadingError>((t, n)),
        parse_light_body(s.skip(n as int), v) == Ok::<
            ((Seq<Seq<i64>>, Seq<Seq<u8>>, Seq<Seq<u8>>), nat),
            ReadingError,
        >(((masks, sky, block), k)),
    ensures
        parse_light_data(s, v) == Ok::<(LightDataModel, nat), ReadingError>(
            (
                LightDataModel {
                    trust_edges: t,
                    sky_light_mask: masks[0],
                    block_light_mask: masks[1],
                    empty_sky_light_mask: masks[2],
                    empty_block_light_mask: masks[3],
                    sky_light_arrays: sky,
                    block_light_arrays: block,
                },
                n + k,
            ),
        ),
{
    reveal(parse_light_data);
}

proof fn lemma_light_data_parse_of_write(m: LightDataModel, v: JavaMinecraftVersion, rest: Seq<u8>)
    requires
        light_data_reads_back(m, v),
    ensures
        ({
            let te = trust_edges_bytes(v, m.trust_edges);
            let mb = repeat_bytes(masks_of(m), mask_enc(v));
            let sb = light_arrays_bytes(v, m.sky_light_mask, m.sky_light_arrays);
            let bb = light_arrays_bytes(v, m.block_light_mask, m.block_light_arrays);
            let masks = masks_of(m);
            &&& light_data_bytes(m, v) == te + mb + sb + bb
            &&& parse_light_data(light_data_bytes(m, v) + rest, v) == Ok::<
                (LightDataModel, nat),
                ReadingError,
            >(
                (
                    LightDataModel {
                        trust_edges: sends_trust_edges(v) && m.trust_edges,
                        sky_light_mask: masks[0],
                        block_light_mask: masks[1],
                        empty_sky_light_mask: masks[2],
                        empty_block_light_mask: masks[3],
                        sky_light_arrays: m.sky_light_arrays,
                        block_light_arrays: m.block_light_arrays,
                    },
                    te.len() + (mb.len() + sb.len() + bb.len()),
                ),
            )
        }),
{
    let te = trust_edges_bytes(v, m.trust_edges);
    let mb = repeat_bytes(masks_of(m), mask_enc(v));
    let sb = light_arrays_bytes(v, m.sky_light_mask, m.sky_light_arrays);
    let bb = light_arrays_bytes(v, m.block_light_mask, m.block_light_arrays);
    let body = mb + (sb + (bb + rest));
    assert(light_data_bytes(m, v) == te + mb + sb + bb) by {
        reveal(light_data_bytes);
    }
    let s = light_data_bytes(m, v) + rest;
    assert(s =~= te + body);
    lemma_trust_edges_roundtrip(v, m.trust_edges, body);
    assert(s.skip(te.len() as int) =~= body);
    lemma_light_body_roundtrip(v, m, rest);
    lemma_parse_light_data_parts(
        s,
        v,
        sends_trust_edges(v) && m.trust_edges,
        te.len(),
        masks_of(m),
        m.sky_light_arrays,
        m.block_light_arrays,
        mb.len() + sb.len() + bb.len(),
    );
}

/// From release 1.17 on, reading back the light data that `write_internal`
/// lays out gives the same data (the trust-edges flag only where the release
/// sends it) and takes exactly its bytes, whatever follows them.
pub proof fn lemma_light_data_roundtrip(m: LightDataModel, v: JavaMinecraftVersion, rest: Seq<u8>)
    requires
        light_data_reads_back(m, v),
    ensures
        parse_light_data(light_data_bytes(m, v) + rest, v) == Ok::<(LightDataModel, nat), ReadingError>(
            (as_received(m, v), light_data_bytes(m, v).len()),
        ),
{
    lemma_light_data_parse_of_write(m, v, rest);
    let masks = masks_of(m);
    assert(masks[0] == m.sky_light_mask && masks[1] == m.block_light_mask && masks[2]
        == m.empty_sky_light_mask && masks[3] == m.empty_block_light_mask);
}

/// A mask is read from the bytes it takes alone.
proof fn lemma_mask_prefix(v: JavaMinecraftVersion, s: Seq<u8>, t: Seq<u8>)
    ensures
        parse_mask(v, s) matches Ok((_, n)) ==> n <= s.len() && (same_prefix(s, t, n)
            ==> parse_mask(v, t) == parse_mask(v, s)),
{
    lemma_bit_set_prefix(s, t);
    lemma_var_int_prefix(s, t);
}

/// The light arrays that go with a mask are read from the bytes they take
/// alone.
proof fn lemma_light_arrays_prefix(v: JavaMinecraftVersion, s: Seq<u8>, t: Seq<u8>, mask: Seq<i64>)
    ensures
        parse_light_arrays(v, s, mask) matches Ok((_, n)) ==> n <= s.len() && (same_prefix(s, t, n)
            ==> parse_light_arrays(v, t, mask) == parse_light_arrays(v, s, mask)),
{
    reveal(parse_light_arrays);
    lemma_arrays_prefix(s, t);
    lemma_legacy_arrays_prefix(s, t, mask);
}

/// The sky and block arrays are read from the bytes they take alone.
proof fn lemma_arrays_pair_prefix(
    s: Seq<u8>,
    t: Seq<u8>,
    v: JavaMinecraftVersion,
    sky_mask: Seq<i64>,
    block_mask: Seq<i64>,
)
    ensures
        parse_arrays_pair(s, v, sky_mask, block_mask) matches Ok((_, n)) ==> n <= s.len() && (
        same_prefix(s, t, n) ==> parse_arrays_pair(t, v, sky_mask, block_mask) == parse_arrays_pair(
            s,
            v,
            sky_mask,
            block_mask,
        )),
{
    reveal(parse_arrays_pair);
    lemma_light_arrays_prefix(v, s, t, sky_mask);
    if let Ok((_, n1)) = parse_light_arrays(v, s, sky_mask) {
        lemma_light_arrays_prefix(v, s.skip(n1 as int), t.skip(n1 as int), block_mask);
        if let Ok((_, n)) = parse_arrays_pair(s, v, sky_mask, block_mask) {
            if same_prefix(s, t, n) {
                lemma_same_prefix_shorter(s, t, n, n1);
                lemma_same_prefix_skip(s, t, n, n1);
            }
        }
    }
}

/// The masks and arrays are read from the bytes they take alone.
proof fn lemma_light_body_prefix(s: Seq<u8>, t: Seq<u8>, v: JavaMinecraftVersion)
    ensures
        parse_light_body(s, v) matches Ok((_, n)) ==> n <= s.len() && (same_prefix(s, t, n)
            ==> parse_light_body(t, v) == parse_light_body(s, v)),
{
    assert forall|a: Seq<u8>, b: Seq<u8>| #[trigger] reads_only_prefix(mask_item(v), a, b) by {
        lemma_mask_prefix(v, a, b);
    }
    lemma_parse_repeat_prefix(s, t, 4, mask_item(v));
    if let Ok((masks, n1)) = parse_repeat(s, 4, mask_item(v)) {
        lemma_arrays_pair_prefix(s.skip(n1 as int), t.skip(n1 as int), v, masks[0], masks[1]);
        if let Ok((_, n)) = parse_light_body(s, v) {
            if same_prefix(s, t, n) {
                lemma_same_prefix_shorter(s, t, n, n1);
                lemma_same_prefix_skip(s, t, n, n1);
            }
        }
    }
}

/// Light data is read from the bytes it takes alone: it takes no more bytes
/// than there are, and any input that starts with those bytes reads the same.
pub proof fn lemma_light_data_prefix(s: Seq<u8>, t: Seq<u8>, v: JavaMinecraftVersion)
    ensures
        parse_light_data(s, v) matches Ok((_, n)) ==> n <= s.len() && (same_prefix(s, t, n)
            ==> parse_light_data(t, v) == parse_light_data(s, v)),
{
    reveal(parse_light_data);
    lemma_bool_prefix(s, t);
    if let Ok((_, n1)) = parse_trust_edges(s, v) {
        lemma_light_body_prefix(s.skip(n1 as int), t.skip(n1 as int), v);
        if let Ok((_, n)) = parse_light_data(s, v) {
            if same_prefix(s, t, n) {
                lemma_same_prefix_shorter(s, t, n, n1);
                lemma_same_prefix_skip(s, t, n, n1);
            }
        }
    }
}

/// Bytes that read as light data taking all of them have no proper prefix
/// that reads as light data.
proof fn lemma_whole_reading_refuses_prefixes(full: Seq<u8>, v: JavaMinecraftVersion, k: nat)
    requires
        parse_light_data(full, v) matches Ok((_, n)) && n == full.len(),
        k < full.len(),
    ensures
        parse_light_data(full.take(k as int), v) is Err,
{
    let cut = full.take(k as int);
    lemma_light_data_prefix(cut, full, v);
    if let Ok((_, n)) = parse_light_data(cut, v) {
        assert(cut.take(n as int) =~= full.take(n as int));
        assert(parse_light_data(full, v) == parse_light_data(cut, v));
    }
}

/// A proper prefix of the light data that `write_internal` lays out is
/// refused: reading it fails, and never gives part of the data.
pub proof fn lemma_truncated_light_data_is_refused(m: LightDataModel, v: JavaMinecraftVersion, k: nat)
    requires
        light_data_reads_back(m, v),
        k < light_data_bytes(m, v).len(),
    ensures
        parse_light_data(light_data_bytes(m, v).take(k as int), v) is Err,
{
    lemma_light_data_roundtrip(m, v, Seq::empty());
    assert(light_data_bytes(m, v) + Seq::<u8>::empty() =~= light_data_bytes(m, v));
    lemma_whole_reading_refuses_prefixes(light_data_bytes(m, v), v, k);
}

/// The light data that release `v` gets from `LightData::write`.
pub open spec fn as_sent(m: LightDataModel, v: JavaMinecraftVersion) -> LightDataModel {
    if v == JavaMinecraftVersion::V_26_2 {
        trim_model(m, MAX_MASK_WORDS_26_2 as nat)
    } else {
        m
    }
}

/// What `write` sends equals what `write_internal` lays out for the data as
/// sent; for release 26.2 no mask of it has more than 12 words.
pub proof fn lemma_write_sends_trimmed(m: LightDataModel, v: JavaMinecraftVersion)
    ensures
        light_data_write_bytes(m, v) == light_data_bytes(as_sent(m, v), v),
        v == JavaMinecraftVersion::V_26_2 ==> {
            let t = as_sent(m, v);
            &&& t.sky_light_mask.len() <= MAX_MASK_WORDS_26_2
            &&& t.block_light_mask.len() <= MAX_MASK_WORDS_26_2
            &&& t.empty_sky_light_mask.len() <= MAX_MASK_WORDS_26_2
            &&& t.empty_block_light_mask.len() <= MAX_MASK_WORDS_26_2
        },
{
}

/// From release 1.17 on, reading back what `LightData::write` sends gives the
/// data as sent (cut to 12 mask words for release 26.2), with the trust-edges
/// flag only where the release sends it.
pub proof fn lemma_light_data_write_roundtrip(
    m: LightDataModel,
    v: JavaMinecraftVersion,
    rest: Seq<u8>,
)
    requires
        light_data_reads_back(m, v),
    ensures
        parse_light_data(light_data_write_bytes(m, v) + rest, v) == Ok::<
            (LightDataModel, nat),
            ReadingError,
        >((as_received(as_sent(m, v), v), light_data_write_bytes(m, v).len())),
{
    let t = as_sent(m, v);
    reveal(light_data_reads_back);
    if v == JavaMinecraftVersion::V_26_2 {
        assert forall|i: int| 0 <= i < t.sky_light_arrays.len() implies #[trigger] t.sky_light_arrays[i].len()
            <= i32::MAX by {
            assert(t.sky_light_arrays[i] == m.sky_light_arrays[i]);
        }
        assert forall|i: int| 0 <= i < t.block_light_arrays.len() implies #[trigger] t.block_light_arrays[i].len()
            <= i32::MAX by {
            assert(t.block_light_arrays[i] == m.block_light_arrays[i]);
        }
        assert(light_data_reads_back(t, v));
    }
    lemma_light_data_roundtrip(t, v, rest);
}

/// A proper prefix of what `LightData::write` sends is refused: reading it
/// fails, and never gives part of the data.
pub proof fn lemma_truncated_write_is_refused(m: LightDataModel, v: JavaMinecraftVersion, k: nat)
    requires
        light_data_reads_back(m, v),
        k < light_data_write_bytes(m, v).len(),
    ensures
        parse_light_data(light_data_write_bytes(m, v).take(k as int), v) is Err,
{
    lemma_light_data_write_roundtrip(m, v, Seq::empty());
    assert(light_data_write_bytes(m, v) + Seq::<u8>::empty() =~= light_data_write_bytes(m, v));
    lemma_whole_reading_refuses_prefixes(light_data_write_bytes(m, v), v, k);
}

/// A light update on the wire: the chunk coordinates as VarInts, then the
/// light data as `LightData::write` sends it.
pub open spec fn light_update_bytes(
    chunk_x: i32,
    chunk_z: i32,
    m: LightDataModel,
    v: JavaMinecraftVersion,
) -> Seq<u8> {
    var_int_bytes(chunk_x) + var_int_bytes(chunk_z) + light_data_write_bytes(m, v)
}

/// A light update at the front of `s`: the chunk coordinates and the light
/// data.
pub open spec fn parse_light_update(s: Seq<u8>, v: JavaMinecraftVersion) -> Result<
    ((i32, i32, LightDataModel), nat),
    ReadingError,
> {
    match parse_var_int(s) {
        Err(e) => Err(e),
        Ok((x, n1)) => match parse_var_int(s.skip(n1 as int)) {
            Err(e) => Err(e),
            Ok((z, n2)) => match parse_light_data(s.skip((n1 + n2) as int), v) {
                Err(e) => Err(e),
                Ok((m, n3)) => Ok(((x, z, m), n1 + n2 + n3)),
            },
        },
    }
}

/// From release 1.17 on, reading back a light update gives the same chunk
/// and the light data as sent.
pub proof fn lemma_light_update_roundtrip(
    chunk_x: i32,
    chunk_z: i32,
    m: LightDataModel,
    v: JavaMinecraftVersion,
    rest: Seq<u8>,
)
    requires
        light_data_reads_back(m, v),
    ensures
        parse_light_update(light_update_bytes(chunk_x, chunk_z, m, v) + rest, v) == Ok::<
            ((i32, i32, LightDataModel), nat),
            ReadingError,
        >(
            (
                (chunk_x, chunk_z, as_received(as_sent(m, v), v)),
                light_update_bytes(chunk_x, chunk_z, m, v).len(),
            ),
        ),
{
    let xb = var_int_bytes(chunk_x);
    let zb = var_int_bytes(chunk_z);
    let lb = light_data_write_bytes(m, v);
    let s = light_update_bytes(chunk_x, chunk_z, m, v) + rest;
    assert(s =~= xb + (zb + (lb + rest)));
    lemma_var_int_roundtrip(chunk_x, zb + (lb + rest));
    assert(s.skip(xb.len() as int) =~= zb + (lb + rest));
    lemma_var_int_roundtrip(chunk_z, lb + rest);
    assert(s.skip((xb.len() + zb.len()) as int) =~= lb + rest);
    lemma_light_data_write_roundtrip(m, v, rest);
}

/// Bits below position `64 * k` are the same in a mask and in its first `k`
/// words.
proof fn lemma_ones_below_take(mask: Seq<i64>, k: nat, n: nat)
    requires
        k <= mask.len(),
        n <= 64 * k,
    ensures
        ones_below(mask.take(k as int), n) == ones_below(mask, n),
    decreases n,
{
    if n > 0 {
        lemma_ones_below_take(mask, k, (n - 1) as nat);
        let i = n - 1;
        assert(i / 64 < k) by (nonlinear_arith)
            requires
                0 <= i < 64 * k,
        ;
        assert(bit_of(mask.take(k as int), i) == bit_of(mask, i));
    }
}

/// Cutting light data to `max_words` words twice is cutting it once.
pub proof fn lemma_trim_idempotent(m: LightDataModel, max_words: nat)
    ensures
        trim_model(trim_model(m, max_words), max_words) == trim_model(m, max_words),
{
    let t = trim_model(m, max_words);
    let ks = min_nat(max_words, m.sky_light_mask.len());
    let kb = min_nat(max_words, m.block_light_mask.len());
    lemma_ones_below_take(m.sky_light_mask, ks, 64 * ks);
    lemma_ones_below_take(m.block_light_mask, kb, 64 * kb);
    assert(t.sky_light_mask.len() == ks);
    assert(t.block_light_mask.len() == kb);
    assert(trim_mask_words(t.sky_light_mask, max_words) =~= t.sky_light_mask);
    assert(trim_mask_words(t.block_light_mask, max_words) =~= t.block_light_mask);
    assert(trim_mask_words(t.empty_sky_light_mask, max_words) =~= t.empty_sky_light_mask);
    assert(trim_mask_words(t.empty_block_light_mask, max_words) =~= t.empty_block_light_mask);
    assert(trim_arrays_seq(t.sky_light_mask, t.sky_light_arrays, max_words) =~= t.sky_light_arrays);
    assert(trim_arrays_seq(t.block_light_mask, t.block_light_arrays, max_words)
        =~= t.block_light_arrays);
}

/// The smaller of `a` and `b`.
pub open spec fn min_nat(a: nat, b: nat) -> nat {
    if a < b {
        a
    } else {
        b
    }
}

/// A mask cut to its first `max_words` words.
pub open spec fn trim_mask_words(mask: Seq<i64>, max_words: nat) -> Seq<i64> {
    mask.take(min_nat(max_words, mask.len()) as int)
}

/// The arrays that stay when `mask` is cut to `max_words` words: those that
/// belong to set bits of the kept words, as far as arrays remain.
pub open spec fn trim_arrays_seq(mask: Seq<i64>, arrays: Seq<Seq<u8>>, max_words: nat) -> Seq<
    Seq<u8>,
> {
    arrays.take(
        min_nat(arrays.len(), ones_below(mask, 64 * min_nat(max_words, mask.len()))) as int,
    )
}

/// Light data cut to `max_words` mask words, with the arrays of the dropped
/// words dropped.
pub open spec fn trim_model(m: LightDataModel, max_words: nat) -> LightDataModel {
    LightDataModel {
        trust_edges: m.trust_edges,
        sky_light_mask: trim_mask_words(m.sky_light_mask, max_words),
        block_light_mask: trim_mask_words(m.block_light_mask, max_words),
        empty_sky_light_mask: trim_mask_words(m.empty_sky_light_mask, max_words),
        empty_block_light_mask: trim_mask_words(m.empty_block_light_mask, max_words),
        sky_light_arrays: trim_arrays_seq(m.sky_light_mask, m.sky_light_arrays, max_words),
        block_light_arrays: trim_arrays_seq(m.block_light_mask, m.block_light_arrays, max_words),
    }
}

/// What `LightData::write` sends in release `v`: release 26.2 gets the data
/// cut to 12 mask words.
pub open spec fn light_data_write_bytes(m: LightDataModel, v: JavaMinecraftVersion) -> Seq<u8> {
    if v == JavaMinecraftVersion::V_26_2 {
        light_data_bytes(trim_model(m, MAX_MASK_WORDS_26_2 as nat), v)
    } else {
        light_data_bytes(m, v)
    }
}

/// `mask` cut to its first `max_words` words.
fn trim_mask(mask: &BitSet, max_words: usize) -> (r: BitSet)
    ensures
        r@ == trim_mask_words(mask@, max_words as nat),
{
    let n = if max_words < mask.0.len() {
        max_words
    } else {
        mask.0.len()
    };
    let mut words: Vec<i64> = Vec::new();
    let mut i: usize = 0;
    while i < n
        invariant
            n <= mask@.len(),
            n == min_nat(max_words as nat, mask@.len()),
            i <= n,
            words@ == mask@.take(i as int),
        decreases n - i,
    {
        words.push(mask.0[i]);
        i = i + 1;
        assert(words@ =~= mask@.take(i as int));
    }
    BitSet::from_longs(words)
}

/// Bit `b` of word `w` is position `64 * w + b`.
proof fn lemma_bit_position(words: Seq<i64>, w: int, b: int)
    requires
        0 <= w < words.len(),
        0 <= b < 64,
    ensures
        bit_of(words, 64 * w + b) == (((words[w] as u64) >> (b as u64)) & 1u64 == 1u64),
{
    assert((64 * w + b) / 64 == w && (64 * w + b) % 64 == b) by (nonlinear_arith)
        requires
            0 <= w,
            0 <= b < 64,
    ;
}

/// The arrays that stay when `mask` is cut to `max_words` words.
fn trim_arrays(mask: &BitSet, arrays: &Vec<Vec<u8>>, max_words: usize) -> (r: Vec<Vec<u8>>)
    ensures
        arrays_view(r@) == trim_arrays_seq(mask@, arrays_view(arrays@), max_words as nat),
{
    let ghost view = arrays_view(arrays@);
    let words = if max_words < mask.0.len() {
        max_words
    } else {
        mask.0.len()
    };
    let mut kept: Vec<Vec<u8>> = Vec::new();
    let mut array_index: usize = 0;
    let mut w: usize = 0;
    while w < words
        invariant
            words <= mask@.len(),
            words == min_nat(max_words as nat, mask@.len()),
            w <= words,
            view == arrays_view(arrays@),
            array_index == min_nat(arrays@.len(), ones_below(mask@, (64 * w) as nat)),
            arrays_view(kept@) == view.take(array_index as int),
        decreases words - w,
    {
        let word = mask.0[w] as u64;
        let mut b: u64 = 0;
        while b < 64
            invariant
                w < words <= mask@.len(),
                b <= 64,
                word == mask@[w as int] as u64,
                view == arrays_view(arrays@),
                array_index == min_nat(arrays@.len(), ones_below(mask@, (64 * w + b) as nat)),
                arrays_view(kept@) == view.take(array_index as int),
            decreases 64 - b,
        {
            proof {
                lemma_bit_position(mask@, w as int, b as int);
            }
            if (word >> b) & 1 == 1 {
                if array_index < arrays.len() {
                    let ghost before = kept@;
                    kept.push(copy_bytes(&arrays[array_index]));
                    assert(arrays_view(kept@) =~= arrays_view(before).push(view[array_index as int]));
                    assert(view.take(array_index as int).push(view[array_index as int]) =~= view.take(
                        array_index + 1,
                    ));
                    array_index = array_index + 1;
                }
            }
            b = b + 1;
        }
        w = w + 1;
    }
    kept
}

impl CLightUpdate {
    /// Appends the packet's fields: the chunk coordinates, then the light
    /// data as `LightData::write` sends it to release `version`.
    pub fn write_packet_data(&self, out: &mut Vec<u8>, version: &JavaMinecraftVersion)
        ensures
            final(out)@ == old(out)@ + light_update_bytes(
                self.chunk_x.0,
                self.chunk_z.0,
                self.light_data@,
                *version,
            ),
    {
        write_var_int(out, &self.chunk_x);
        write_var_int(out, &self.chunk_z);
        self.light_data.write(out, version);
        assert(out@ =~= old(out)@ + light_update_bytes(
            self.chunk_x.0,
            self.chunk_z.0,
            self.light_data@,
            *version,
        ));
    }

    /// Reads the packet's fields, laid out for release `version`, at
    /// `data[pos]`: the packet and the position just past it.
    pub fn read(data: &[u8], pos: usize, version: &JavaMinecraftVersion) -> (r: Result<
        (CLightUpdate, usize),
        ReadingError,
    >)
        requires
            pos <= data@.len(),
        ensures
            match parse_light_update(data@.skip(pos as int), *version) {
                Ok(((x, z, m), n)) => r matches Ok((u, p)) && u.chunk_x == VarInt(x) && u.chunk_z
                    == VarInt(z) && u.light_data@ == m && p == pos + n,
                Err(e) => r == Err::<(CLightUpdate, usize), ReadingError>(e),
            },
    {
        let ghost s = data@.skip(pos as int);
        let (chunk_x, p1) = match read_var_int(data, pos) {
            Ok(x) => x,
            Err(e) => return Err(e),
        };
        assert(data@.skip(p1 as int) =~= s.skip(p1 - pos));
        let (chunk_z, p2) = match read_var_int(data, p1) {
            Ok(x) => x,
            Err(e) => return Err(e),
        };
        assert(data@.skip(p2 as int) =~= s.skip(p2 - pos));
        let (light_data, p3) = match LightData::read(data, p2, version) {
            Ok(x) => x,
            Err(e) => return Err(e),
        };
        Ok((CLightUpdate { chunk_x, chunk_z, light_data }, p3))
    }

    pub fn new(chunk_x: VarInt, chunk_z: VarInt, light_data: LightData) -> (r: CLightUpdate)
        ensures
            r.chunk_x == chunk_x,
            r.chunk_z == chunk_z,
            r.light_data == light_data,
    {
        CLightUpdate { chunk_x, chunk_z, light_data }
    }
}

impl LightData {
    pub fn new(
        trust_edges: bool,
        sky_light_mask: BitSet,
        block_light_mask: BitSet,
        empty_sky_light_mask: BitSet,
        empty_block_light_mask: BitSet,
        sky_light_arrays: Vec<Vec<u8>>,
        block_light_arrays: Vec<Vec<u8>>,
    ) -> (r: LightData)
        ensures
            r.trust_edges == trust_edges,
            r.sky_light_mask == sky_light_mask,
            r.block_light_mask == block_light_mask,
            r.empty_sky_light_mask == empty_sky_light_mask,
            r.empty_block_light_mask == empty_block_light_mask,
            r.sky_light_arrays == sky_light_arrays,
            r.block_light_arrays == block_light_arrays,
    {
        LightData {
            trust_edges,
            sky_light_mask,
            block_light_mask,
            empty_sky_light_mask,
            empty_block_light_mask,
            sky_light_arrays,
            block_light_arrays,
        }
    }

    /// The data cut to `max_words` mask words: masks keep their first
    /// `max_words` words, and each list of arrays keeps those that belong to
    /// set bits of the kept words.
    fn trimmed(&self, max_words: usize) -> (r: LightData)
        ensures
            r@ == trim_model(self@, max_words as nat),
    {
        let sky_light_arrays = trim_arrays(&self.sky_light_mask, &self.sky_light_arrays, max_words);
        let block_light_arrays = trim_arrays(
            &self.block_light_mask,
            &self.block_light_arrays,
            max_words,
        );
        LightData {
            trust_edges: self.trust_edges,
            sky_light_mask: trim_mask(&self.sky_light_mask, max_words),
            block_light_mask: trim_mask(&self.block_light_mask, max_words),
            empty_sky_light_mask: trim_mask(&self.empty_sky_light_mask, max_words),
            empty_block_light_mask: trim_mask(&self.empty_block_light_mask, max_words),
            sky_light_arrays,
            block_light_arrays,
        }
    }

    /// Cuts the data to `max_words` mask words, dropping the arrays of the
    /// dropped words.
    pub fn trim_to_max_words(&mut self, max_words: usize)
        ensures
            final(self)@ == trim_model(old(self)@, max_words as nat),
    {
        *self = self.trimmed(max_words);
    }

    /// Appends the data as release `version` expects it. Release 26.2 rejects
    /// masks longer than 12 words, so for it the data is cut to 12 words first.
    pub fn write(&self, out: &mut Vec<u8>, version: &JavaMinecraftVersion)
        ensures
            final(out)@ == old(out)@ + light_data_write_bytes(self@, *version),
    {
        if *version == JavaMinecraftVersion::V_26_2 {
            let trimmed = self.trimmed(MAX_MASK_WORDS_26_2);
            trimmed.write_internal(out, version);
        } else {
            self.write_internal(out, version);
        }
    }

    fn write_mask(out: &mut Vec<u8>, mask: &BitSet, version: &JavaMinecraftVersion)
        ensures
            final(out)@ == old(out)@ + mask_bytes(*version, mask@),
    {
        if version.is_at_least(JavaMinecraftVersion::V_1_17) {
            mask.encode(out);
        } else {
            write_var_int(out, &VarInt(mask.as_u64() as i32));
        }
    }

    fn write_light_arrays(
        out: &mut Vec<u8>,
        mask: &BitSet,
        arrays: &Vec<Vec<u8>>,
        version: &JavaMinecraftVersion,
    )
        ensures
            final(out)@ == old(out)@ + light_arrays_bytes(*version, mask@, arrays_view(arrays@)),
    {
        proof {
            reveal(light_arrays_bytes);
        }
        if version.is_at_least(JavaMinecraftVersion::V_1_17) {
            write_arrays(out, arrays);
        } else {
            write_legacy_arrays(out, mask, arrays);
        }
    }

    fn write_masks(out: &mut Vec<u8>, d: &LightData, version: &JavaMinecraftVersion)
        ensures
            final(out)@ == old(out)@ + repeat_bytes(masks_of(d@), mask_enc(*version)),
    {
        let ghost start = out@;
        let ghost v = *version;
        let ghost masks = masks_of(d@);
        proof {
            assert(masks.take(0) =~= Seq::<Seq<i64>>::empty());
            assert(repeat_bytes(Seq::<Seq<i64>>::empty(), mask_enc(v)) =~= Seq::<u8>::empty());
            lemma_repeat_bytes_push(masks.take(0), masks[0], mask_enc(v));
            assert(masks.take(0).push(masks[0]) =~= masks.take(1));
            lemma_repeat_bytes_push(masks.take(1), masks[1], mask_enc(v));
            assert(masks.take(1).push(masks[1]) =~= masks.take(2));
            lemma_repeat_bytes_push(masks.take(2), masks[2], mask_enc(v));
            assert(masks.take(2).push(masks[2]) =~= masks.take(3));
            lemma_repeat_bytes_push(masks.take(3), masks[3], mask_enc(v));
            assert(masks.take(3).push(masks[3]) =~= masks);
        }
        Self::write_mask(out, &d.sky_light_mask, version);
        assert(out@ =~= start + repeat_bytes(masks.take(1), mask_enc(v)));
        Self::write_mask(out, &d.block_light_mask, version);
        assert(out@ =~= start + repeat_bytes(masks.take(2), mask_enc(v)));
        Self::write_mask(out, &d.empty_sky_light_mask, version);
        assert(out@ =~= start + repeat_bytes(masks.take(3), mask_enc(v)));
        Self::write_mask(out, &d.empty_block_light_mask, version);
        assert(out@ =~= start + repeat_bytes(masks, mask_enc(v)));
    }

    /// Appends the data as release `version` lays it out, without trimming.
    fn write_internal(&self, out: &mut Vec<u8>, version: &JavaMinecraftVersion)
        ensures
            final(out)@ == old(out)@ + light_data_bytes(self@, *version),
    {
        let ghost start = out@;
        let ghost m = self@;
        let ghost v = *version;
        if version.is_at_least(JavaMinecraftVersion::V_1_16) && version.is_at_most(
            JavaMinecraftVersion::V_1_19_4,
        ) {
            write_bool(out, self.trust_edges);
        }
        let ghost after_te = out@;
        Self::write_masks(out, self, version);
        Self::write_light_arrays(out, &self.sky_light_mask, &self.sky_light_arrays, version);
        Self::write_light_arrays(out, &self.block_light_mask, &self.block_light_arrays, version);
        assert(out@ =~= start + light_data_bytes(m, v)) by {
            reveal(light_data_bytes);
        }
    }

    fn read_mask(data: &[u8], pos: usize, version: &JavaMinecraftVersion) -> (r: Result<
        (BitSet, usize),
        ReadingError,
    >)
        requires
            pos <= data@.len(),
        ensures
            match parse_mask(*version, data@.skip(pos as int)) {
                Ok((w, n)) => r matches Ok((m, p)) && m@ == w && p == pos + n,
                Err(e) => r == Err::<(BitSet, usize), ReadingError>(e),
            },
            r matches Ok((_, p)) ==> pos <= p <= data@.len(),
    {
        if version.is_at_least(JavaMinecraftVersion::V_1_17) {
            BitSet::decode(data, pos)
        } else {
            match read_var_int(data, pos) {
                Ok((x, p)) => Ok((BitSet::from_u64(x.0 as u64), p)),
                Err(e) => Err(e),
            }
        }
    }

    fn read_light_arrays(
        data: &[u8],
        pos: usize,
        mask: &BitSet,
        version: &JavaMinecraftVersion,
    ) -> (r: Result<(Vec<Vec<u8>>, usize), ReadingError>)
        requires
            pos <= data@.len(),
        ensures
            match parse_light_arrays(*version, data@.skip(pos as int), mask@) {
                Ok((a, n)) => r matches Ok((v, p)) && arrays_view(v@) == a && p == pos + n,
                Err(e) => r == Err::<(Vec<Vec<u8>>, usize), ReadingError>(e),
            },
            r matches Ok((_, p)) ==> pos <= p <= data@.len(),
    {
        proof {
            reveal(parse_light_arrays);
        }
        if version.is_at_least(JavaMinecraftVersion::V_1_17) {
            read_arrays(data, pos)
        } else {
            read_legacy_arrays(data, pos, mask)
        }
    }

    /// Reads the four masks at `data[pos]`.
    fn read_masks(data: &[u8], pos: usize, version: &JavaMinecraftVersion) -> (r: Result<
        (Vec<BitSet>, usize),
        ReadingError,
    >)
        requires
            pos <= data@.len(),
        ensures
            match parse_repeat(data@.skip(pos as int), 4, mask_item(*version)) {
                Ok((ms, n)) => r matches Ok((v, p)) && masks_view(v@) == ms && p == pos + n,
                Err(e) => r == Err::<(Vec<BitSet>, usize), ReadingError>(e),
            },
            r matches Ok((_, p)) ==> pos <= p <= data@.len(),
    {
        let ghost s = data@.skip(pos as int);
        let ghost v = *version;
        let ghost whole = parse_repeat(s, 4, mask_item(v));
        let mut masks: Vec<BitSet> = Vec::new();
        let mut p = pos;
        let mut i: usize = 0;
        proof {
            assert(s.skip(0) =~= s);
            assert(masks_view(masks@) =~= Seq::<Seq<i64>>::empty());
            lemma_after_prefix_empty(whole);
        }
        while i < 4
            invariant
                pos <= p <= data@.len(),
                i <= 4,
                s == data@.skip(pos as int),
                v == *version,
                whole == parse_repeat(s, 4, mask_item(v)),
                whole == after_prefix(
                    masks_view(masks@),
                    (p - pos) as nat,
                    parse_repeat(s.skip((p - pos) as int), (4 - i) as nat, mask_item(v)),
                ),
            decreases 4 - i,
        {
            let ghost c = (p - pos) as nat;
            assert(data@.skip(p as int) =~= s.skip(c as int));
            assert(mask_item(v)(s.skip(c as int)) == parse_mask(v, s.skip(c as int)));
            match Self::read_mask(data, p, version) {
                Ok((m, p2)) => {
                    proof {
                        lemma_parse_repeat_step(
                            s,
                            c,
                            (4 - i) as nat,
                            masks_view(masks@),
                            mask_item(v),
                        );
                    }
                    let ghost before = masks@;
                    masks.push(m);
                    assert(masks_view(masks@) =~= masks_view(before).push(m@));
                    p = p2;
                },
                Err(e) => {
                    assert(parse_repeat(s.skip(c as int), (4 - i) as nat, mask_item(v)) == Err::<
                        (Seq<Seq<i64>>, nat),
                        ReadingError,
                    >(e));
                    return Err(e);
                },
            }
            i = i + 1;
        }
        assert(masks_view(masks@) + Seq::<Seq<i64>>::empty() =~= masks_view(masks@));
        Ok((masks, p))
    }

    fn read_arrays_pair(
        data: &[u8],
        pos: usize,
        sky_mask: &BitSet,
        block_mask: &BitSet,
        version: &JavaMinecraftVersion,
    ) -> (r: Result<(Vec<Vec<u8>>, Vec<Vec<u8>>, usize), ReadingError>)
        requires
            pos <= data@.len(),
        ensures
            match parse_arrays_pair(data@.skip(pos as int), *version, sky_mask@, block_mask@) {
                Ok(((sky, block), n)) => r matches Ok((a, b, p)) && arrays_view(a@) == sky
                    && arrays_view(b@) == block && p == pos + n,
                Err(e) => r == Err::<(Vec<Vec<u8>>, Vec<Vec<u8>>, usize), ReadingError>(e),
            },
            r matches Ok((_, _, p)) ==> pos <= p <= data@.len(),
    {
        proof {
            reveal(parse_arrays_pair);
        }
        let (sky, p1) = match Self::read_light_arrays(data, pos, sky_mask, version) {
            Ok(x) => x,
            Err(e) => return Err(e),
        };
        assert(data@.skip(p1 as int) =~= data@.skip(pos as int).skip(p1 - pos));
        let (block, p2) = match Self::read_light_arrays(data, p1, block_mask, version) {
            Ok(x) => x,
            Err(e) => return Err(e),
        };
        Ok((sky, block, p2))
    }

    fn read_body(data: &[u8], pos: usize, version: &JavaMinecraftVersion) -> (r: Result<
        (BitSet, BitSet, BitSet, BitSet, Vec<Vec<u8>>, Vec<Vec<u8>>, usize),
        ReadingError,
    >)
        requires
            pos <= data@.len(),
        ensures
            match parse_light_body(data@.skip(pos as int), *version) {
                Ok(((masks, sky, block), n)) => r matches Ok((a, b, c, d, x, y, p)) && masks
                    == seq![a@, b@, c@, d@] && arrays_view(x@) == sky && arrays_view(y@) == block
                    && p == pos + n,
                Err(e) => r == Err::<
                    (BitSet, BitSet, BitSet, BitSet, Vec<Vec<u8>>, Vec<Vec<u8>>, usize),
                    ReadingError,
                >(e),
            },
            r matches Ok((_, _, _, _, _, _, p)) ==> pos <= p <= data@.len(),
    {
        let ghost s = data@.skip(pos as int);
        let ghost v = *version;
        let (mut masks, p1) = match Self::read_masks(data, pos, version) {
            Ok(x) => x,
            Err(e) => return Err(e),
        };
        let ghost mv = masks_view(masks@);
        proof {
            lemma_mask_item_len(v);
            lemma_parse_repeat_len(s, 4, mask_item(v));
        }
        let empty_block_light_mask = masks.pop().unwrap();
        let empty_sky_light_mask = masks.pop().unwrap();
        let block_light_mask = masks.pop().unwrap();
        let sky_light_mask = masks.pop().unwrap();
        assert(mv =~= seq![sky_light_mask@, block_light_mask@, empty_sky_light_mask@, empty_block_light_mask@]);
        assert(data@.skip(p1 as int) =~= s.skip(p1 - pos));
        let (sky, block, p2) = match Self::read_arrays_pair(
            data,
            p1,
            &sky_light_mask,
            &block_light_mask,
            version,
        ) {
            Ok(x) => x,
            Err(e) => return Err(e),
        };
        Ok((
            sky_light_mask,
            block_light_mask,
            empty_sky_light_mask,
            empty_block_light_mask,
            sky,
            block,
            p2,
        ))
    }

    /// Reads light data laid out as release `version` lays it out, starting at
    /// `data[pos]`: the data and the position just past it.
    #[verifier::rlimit(40)]
    pub fn read(data: &[u8], pos: usize, version: &JavaMinecraftVersion) -> (r: Result<
        (LightData, usize),
        ReadingError,
    >)
        requires
            pos <= data@.len(),
        ensures
            match parse_light_data(data@.skip(pos as int), *version) {
                Ok((m, n)) => r matches Ok((d, p)) && d@ == m && p == pos + n,
                Err(e) => r == Err::<(LightData, usize), ReadingError>(e),
            },
            r matches Ok((_, p)) ==> pos <= p <= data@.len(),
    {
        proof {
            reveal(parse_light_data);
        }
        let (trust_edges, p1) = if version.is_at_least(JavaMinecraftVersion::V_1_16)
            && version.is_at_most(JavaMinecraftVersion::V_1_19_4) {
            match read_bool(data, pos) {
                Ok(x) => x,
                Err(e) => return Err(e),
            }
        } else {
            (false, pos)
        };
        assert(data@.skip(p1 as int) =~= data@.skip(pos as int).skip(p1 - pos));
        let (a, b, c, d, sky, block, p2) = match Self::read_body(data, p1, version) {
            Ok(x) => x,
            Err(e) => return Err(e),
        };
        Ok(
            (
                LightData {
                    trust_edges,
                    sky_light_mask: a,
                    block_light_mask: b,
                    empty_sky_light_mask: c,
                    empty_block_light_mask: d,
                    sky_light_arrays: sky,
                    block_light_arrays: block,
                },
                p2,
            ),
        )
    }
}

/// The trust-edges flag goes on the wire for exactly the releases 1.16, 1.17,
/// 1.18, 1.19 and 1.19.4; bit-set masks and counted arrays are used from 1.17
/// on, that is by every release but 1.14, 1.15 and 1.16.
pub proof fn lemma_layout_by_release(v: JavaMinecraftVersion)
    ensures
        sends_trust_edges(v) <==> (v == JavaMinecraftVersion::V_1_16 || v == JavaMinecraftVersion::V_1_17
            || v == JavaMinecraftVersion::V_1_18 || v == JavaMinecraftVersion::V_1_19 || v
            == JavaMinecraftVersion::V_1_19_4),
        uses_bit_set_masks(v) <==> !(v == JavaMinecraftVersion::V_1_14 || v
            == JavaMinecraftVersion::V_1_15 || v == JavaMinecraftVersion::V_1_16),
{
}

/// Where the release sends it, light data starts with the trust-edges flag:
/// byte 1 when it is set, 0 when not.
pub proof fn lemma_light_data_starts_with_flag(m: LightDataModel, v: JavaMinecraftVersion)
    requires
        sends_trust_edges(v),
    ensures
        light_data_bytes(m, v).len() > 0,
        light_data_bytes(m, v)[0] == (if m.trust_edges { 1u8 } else { 0u8 }),
{
    reveal(light_data_bytes);
    let rest = repeat_bytes(masks_of(m), mask_enc(v)) + light_arrays_bytes(
        v,
        m.sky_light_mask,
        m.sky_light_arrays,
    ) + light_arrays_bytes(v, m.block_light_mask, m.block_light_arrays);
    assert(light_data_bytes(m, v) =~= bool_bytes(m.trust_edges) + rest);
}

} // verus!
