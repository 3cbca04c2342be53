use pumpkin::bit_set::BitSet;
use pumpkin::light_update::{CLightUpdate, LightData};
use pumpkin::ser::ReadingError;
use pumpkin::var_int::VarInt;
use pumpkin::version::JavaMinecraftVersion;

fn sample() -> LightData {
    LightData::new(
        true,
        BitSet::from_longs(vec![0b110]),
        BitSet::from_longs(vec![0b1]),
        BitSet::from_longs(vec![0]),
        BitSet::from_longs(vec![0b1000]),
        vec![vec![1, 2, 3], vec![4]],
        vec![vec![9; 5]],
    )
}

fn written(d: &LightData, v: JavaMinecraftVersion) -> Vec<u8> {
    let mut out = Vec::new();
    d.write(&mut out, &v);
    out
}

#[test]
fn modern_layout_is_exact() {
    let out = written(&sample(), JavaMinecraftVersion::V_1_20);
    let mut expected = vec![];
    for w in [6i64, 1, 0, 8] {
        expected.push(1);
        expected.extend_from_slice(&w.to_be_bytes());
    }
    expected.extend_from_slice(&[2, 3, 1, 2, 3, 1, 4]);
    expected.extend_from_slice(&[1, 5, 9, 9, 9, 9, 9]);
    assert_eq!(out, expected);
}

#[test]
fn trust_edges_only_from_1_16_to_1_19_4() {
    let d = sample();
    let a = written(&d, JavaMinecraftVersion::V_1_17);
    let b = written(&d, JavaMinecraftVersion::V_1_20);
    assert_eq!(a[0], 1);
    assert_eq!(&a[1..], &b[..]);
    let c = written(&d, JavaMinecraftVersion::V_1_19_4);
    assert_eq!(c, a);
}

#[test]
fn modern_roundtrip() {
    for v in [
        JavaMinecraftVersion::V_1_17,
        JavaMinecraftVersion::V_1_19_4,
        JavaMinecraftVersion::V_1_21,
        JavaMinecraftVersion::V_26_2,
    ] {
        let d = sample();
        let mut out = written(&d, v);
        out.push(0xee);
        let (back, p) = LightData::read(&out, 0, &v).unwrap();
        assert_eq!(p, out.len() - 1);
        assert_eq!(back.sky_light_mask, d.sky_light_mask);
        assert_eq!(back.block_light_arrays, d.block_light_arrays);
        assert_eq!(back.sky_light_arrays, d.sky_light_arrays);
        assert_eq!(back.trust_edges, v == JavaMinecraftVersion::V_1_17 || v == JavaMinecraftVersion::V_1_19_4);
    }
}

#[test]
fn legacy_layout_uses_var_int_masks_and_uncounted_arrays() {
    let d = sample();
    let out = written(&d, JavaMinecraftVersion::V_1_16);
    // trust edges, four VarInt masks, then one array per set bit of each mask
    assert_eq!(
        out,
        vec![1, 6, 1, 0, 8, 3, 1, 2, 3, 1, 4, 5, 9, 9, 9, 9, 9]
    );
    let (back, p) = LightData::read(&out, 0, &JavaMinecraftVersion::V_1_16).unwrap();
    assert_eq!(p, out.len());
    assert_eq!(back, d);
    let out = written(&d, JavaMinecraftVersion::V_1_15);
    assert_eq!(out, vec![6, 1, 0, 8, 3, 1, 2, 3, 1, 4, 5, 9, 9, 9, 9, 9]);
}

#[test]
fn legacy_writer_stops_when_arrays_run_out() {
    let d = LightData::new(
        false,
        BitSet::from_longs(vec![0b111]),
        BitSet::from_longs(vec![0]),
        BitSet::from_longs(vec![0]),
        BitSet::from_longs(vec![0]),
        vec![vec![7]],
        vec![vec![8]],
    );
    let out = written(&d, JavaMinecraftVersion::V_1_14);
    assert_eq!(out, vec![7, 0, 0, 0, 1, 7]);
}

#[test]
fn legacy_writer_ignores_bits_past_18() {
    let d = LightData::new(
        false,
        BitSet::from_longs(vec![1 << 18 | 1]),
        BitSet::from_longs(vec![0]),
        BitSet::from_longs(vec![0]),
        BitSet::from_longs(vec![0]),
        vec![vec![7], vec![8]],
        vec![],
    );
    let out = written(&d, JavaMinecraftVersion::V_1_14);
    assert_eq!(out, vec![0x81, 0x80, 0x10, 0, 0, 0, 1, 7]);
}

#[test]
fn release_26_2_gets_at_most_12_mask_words() {
    let mut sky = vec![0i64; 14];
    sky[0] = 1;
    sky[12] = 1;
    sky[13] = 3;
    let d = LightData::new(
        false,
        BitSet::from_longs(sky),
        BitSet::from_longs(vec![1; 13]),
        BitSet::from_longs(vec![0; 20]),
        BitSet::from_longs(vec![]),
        vec![vec![1], vec![2], vec![3], vec![4]],
        vec![vec![5]; 13],
    );
    let v = JavaMinecraftVersion::V_26_2;
    let out = written(&d, v);
    let (back, _) = LightData::read(&out, 0, &v).unwrap();
    assert_eq!(back.sky_light_mask.0.len(), 12);
    assert_eq!(back.block_light_mask.0.len(), 12);
    assert_eq!(back.empty_sky_light_mask.0.len(), 12);
    assert_eq!(back.empty_block_light_mask.0.len(), 0);
    assert_eq!(back.sky_light_arrays, vec![vec![1]]);
    assert_eq!(back.block_light_arrays.len(), 12);
    // other releases keep everything
    let out = written(&d, JavaMinecraftVersion::V_26_1);
    let (back, _) = LightData::read(&out, 0, &JavaMinecraftVersion::V_26_1).unwrap();
    assert_eq!(back, d);
}

#[test]
fn trim_to_max_words_keeps_arrays_of_kept_words() {
    let mut d = LightData::new(
        true,
        BitSet::from_longs(vec![0b11, 0b1]),
        BitSet::from_longs(vec![0, 0b1]),
        BitSet::from_longs(vec![4, 5, 6]),
        BitSet::from_longs(vec![7]),
        vec![vec![1], vec![2], vec![3]],
        vec![vec![4]],
    );
    d.trim_to_max_words(1);
    assert_eq!(d.sky_light_mask, BitSet::from_longs(vec![0b11]));
    assert_eq!(d.block_light_mask, BitSet::from_longs(vec![0]));
    assert_eq!(d.empty_sky_light_mask, BitSet::from_longs(vec![4]));
    assert_eq!(d.empty_block_light_mask, BitSet::from_longs(vec![7]));
    assert_eq!(d.sky_light_arrays, vec![vec![1], vec![2]]);
    assert!(d.block_light_arrays.is_empty());
    assert!(d.trust_edges);
}

#[test]
fn light_data_read_errors() {
    assert_eq!(
        LightData::read(&[], 0, &JavaMinecraftVersion::V_1_16),
        Err(ReadingError::Incomplete)
    );
    assert_eq!(
        LightData::read(&[0xff, 0xff, 0xff, 0xff, 0x0f], 0, &JavaMinecraftVersion::V_1_20),
        Err(ReadingError::TooLarge)
    );
    // four empty masks, then a negative array count
    assert_eq!(
        LightData::read(&[0, 0, 0, 0, 0xff, 0xff, 0xff, 0xff, 0x0f], 0, &JavaMinecraftVersion::V_1_20),
        Err(ReadingError::TooLarge)
    );
    // an array longer than what is left
    assert_eq!(
        LightData::read(&[0, 0, 0, 0, 1, 4, 1], 0, &JavaMinecraftVersion::V_1_20),
        Err(ReadingError::Incomplete)
    );
}

#[test]
fn light_update_packet_roundtrip() {
    let p = CLightUpdate::new(VarInt(-3), VarInt(300), sample());
    let mut out = Vec::new();
    p.write_packet_data(&mut out, &JavaMinecraftVersion::V_1_21);
    assert_eq!(&out[..3], &[0xfd, 0xff, 0xff]);
    let (back, n) = CLightUpdate::read(&out, 0, &JavaMinecraftVersion::V_1_21).unwrap();
    assert_eq!(n, out.len());
    assert_eq!(back.chunk_x, VarInt(-3));
    assert_eq!(back.chunk_z, VarInt(300));
    assert_eq!(back.light_data.sky_light_arrays, p.light_data.sky_light_arrays);
}

#[test]
fn version_order() {
    assert!(JavaMinecraftVersion::V_1_17.is_at_least(JavaMinecraftVersion::V_1_16));
    assert!(!JavaMinecraftVersion::V_1_16.is_at_least(JavaMinecraftVersion::V_1_17));
    assert!(JavaMinecraftVersion::V_1_19_4.is_at_most(JavaMinecraftVersion::V_1_19_4));
    assert!(JavaMinecraftVersion::V_26_2.ordinal() > JavaMinecraftVersion::V_1_21.ordinal());
}

#[test]
fn trimming_twice_is_trimming_once() {
    let mut once = LightData::new(
        false,
        BitSet::from_longs(vec![-1, 3, 5]),
        BitSet::from_longs(vec![1]),
        BitSet::from_longs(vec![2, 2]),
        BitSet::from_longs(vec![]),
        vec![vec![0]; 70],
        vec![vec![1], vec![2]],
    );
    once.trim_to_max_words(2);
    let mut twice = once.clone();
    twice.trim_to_max_words(2);
    assert_eq!(once, twice);
    assert_eq!(once.sky_light_arrays.len(), 66);
    assert_eq!(once.block_light_arrays.len(), 1);
}

#[test]
fn every_proper_prefix_of_written_light_data_is_refused() {
    for v in [
        JavaMinecraftVersion::V_1_16,
        JavaMinecraftVersion::V_1_17,
        JavaMinecraftVersion::V_1_20,
        JavaMinecraftVersion::V_26_2,
    ] {
        let out = written(&sample(), v);
        for k in 0..out.len() {
            assert!(LightData::read(&out[..k], 0, &v).is_err(), "prefix of {} bytes read back", k);
        }
        assert!(LightData::read(&out, 0, &v).is_ok());
    }
}
