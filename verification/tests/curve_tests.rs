use waysn::curve::{build_ramp_table, expand_channel, linear_fractions, ramp_bytes, ramp_table_for};

#[test]
fn expand_channel_endpoints() {
    assert_eq!(expand_channel(0), 0);
    assert_eq!(expand_channel(0xff), 0xffff);
    assert_eq!(expand_channel(0x12), 0x1212);
    assert_eq!(expand_channel(0xab), 0xabab);
}

#[test]
fn linear_fractions_small() {
    // n = 2: endpoints only.
    assert_eq!(linear_fractions(2), vec![0, 65535]);
    // n = 3: midpoint rounds to 32768.
    assert_eq!(linear_fractions(3), vec![0, 32768, 65535]);
    // n = 5: quarter steps.
    assert_eq!(linear_fractions(5), vec![0, 16384, 32768, 49151, 65535]);
}

#[test]
fn linear_fractions_monotone_and_sized() {
    for n in [2u32, 3, 7, 64, 1024] {
        let f = linear_fractions(n);
        assert_eq!(f.len(), n as usize);
        assert_eq!(f[0], 0);
        assert_eq!(f[(n - 1) as usize], 65535);
        for i in 1..f.len() {
            assert!(f[i - 1] <= f[i]);
        }
    }
}

#[test]
fn ramp_table_layout_and_endpoints() {
    let n = 4u32;
    let fracs = linear_fractions(n);
    let table = build_ramp_table((255, 128, 0), &fracs);
    assert_eq!(table.len(), 3 * n as usize);
    // Each segment starts at 0.
    assert_eq!(table[0], 0);
    assert_eq!(table[4], 0);
    assert_eq!(table[8], 0);
    // Each segment ends at the channel's full 16-bit-expanded value.
    assert_eq!(table[3], 0xffff);
    assert_eq!(table[7], 128 * 257);
    assert_eq!(table[11], 0);
}

#[test]
fn ramp_table_midpoint_rounds() {
    // Fraction 32768/65535 of 0xffff rounds to 32768.
    let fracs = linear_fractions(3);
    let table = build_ramp_table((255, 255, 255), &fracs);
    assert_eq!(table[1], 32768);
}

#[test]
fn ramp_segments_monotone() {
    let n = 100u32;
    let fracs = linear_fractions(n);
    let table = build_ramp_table((200, 150, 90), &fracs);
    let n = n as usize;
    for seg in 0..3 {
        for i in 1..n {
            assert!(table[seg * n + i - 1] <= table[seg * n + i]);
        }
    }
}

#[test]
fn ramp_table_for_white_temperature() {
    // 6600 K converts to full white (255, 255, 255).
    let fracs = linear_fractions(3);
    let table = ramp_table_for(6600, &fracs);
    assert_eq!(table, vec![0, 32768, 65535, 0, 32768, 65535, 0, 32768, 65535]);
}

#[test]
fn ramp_table_for_warm_temperature() {
    // 2500 K converts to (255, 159, 70).
    let fracs = linear_fractions(2);
    let table = ramp_table_for(2500, &fracs);
    assert_eq!(
        table,
        vec![0, 255 * 257, 0, 159 * 257, 0, 70 * 257]
    );
}

#[test]
fn ramp_bytes_little_endian() {
    let table = vec![0x1234u16, 0x00ff, 0xab00];
    let bytes = ramp_bytes(&table);
    assert_eq!(bytes, vec![0x34, 0x12, 0xff, 0x00, 0x00, 0xab]);
}

#[test]
fn ramp_bytes_empty() {
    let bytes = ramp_bytes(&Vec::new());
    assert!(bytes.is_empty());
}
