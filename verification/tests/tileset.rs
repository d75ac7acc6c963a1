use amoeba_rl::tileset::{cp437, extras, luminance, GRID};

#[test]
fn printable_ascii_is_its_own_index() {
    for byte in 0x20..=0x7e_u8 {
        assert_eq!(cp437(byte as char), byte);
    }
}

#[test]
fn the_arrows_the_sim_emits_are_all_mapped() {
    assert_eq!(cp437('\u{25BA}'), 16);
    assert_eq!(cp437('\u{25C4}'), 17);
    assert_eq!(cp437('\u{25B2}'), 30);
    assert_eq!(cp437('\u{25BC}'), 31);
}

#[test]
fn the_blocks_the_frontend_draws_are_mapped() {
    assert_eq!(cp437('\u{2588}'), 219);
    assert_eq!(cp437('\u{2591}'), 176);
    assert_eq!(cp437('\u{2022}'), 7);
}

#[test]
fn anything_else_becomes_a_question_mark() {
    for ch in ['\u{e9}', '\u{4e2d}', '\u{1f600}', '\n', '\t', '\u{0}'] {
        assert_eq!(cp437(ch), b'?');
    }
}

#[test]
fn every_index_lands_inside_the_atlas() {
    for byte in 0..=u8::MAX {
        let (row, col) = (byte / GRID, byte % GRID);
        assert!(row < GRID && col < GRID);
    }
}

#[test]
fn the_extras_table_has_no_duplicates() {
    let table = extras();
    for (i, (ch, index)) in table.iter().enumerate() {
        for (other, other_index) in &table[i + 1..] {
            assert_ne!(ch, other);
            assert_ne!(index, other_index);
        }
    }
}

#[test]
fn luminance_is_the_channel_mean() {
    assert_eq!(luminance([0, 0, 0, 255]), 0);
    assert_eq!(luminance([255, 255, 255, 255]), 255);
    assert_eq!(luminance([120, 120, 120, 0]), 120);
}

#[test]
fn luminance_ignores_alpha_and_rounds_down() {
    assert_eq!(luminance([1, 1, 0, 200]), 0);
    assert_eq!(luminance([10, 20, 31, 7]), 20);
}
