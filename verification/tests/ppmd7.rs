use ppmd_rust::range_coding::RangeEncoder7a;
use ppmd_rust::{ByteWriter, Ppmd7};

fn model(order: u32, mem: u32) -> Ppmd7<RangeEncoder7a> {
    Ppmd7::construct(RangeEncoder7a::new(ByteWriter::new(Vec::new())), order, mem)
}

#[test]
fn ppmd7_model_starts_with_all_symbols_in_the_root() {
    let m = model(6, 1 << 20);
    let root = m.min_context;
    assert_eq!(root, m.max_context);
    assert_eq!(root + 12, m.align_offset + m.size);
    assert_eq!(m.num_stats(root), 256);
    assert_eq!(m.summ_freq(root), 257);
    assert_eq!(m.suffix(root), 0);
    let stats = m.stats(root);
    assert_eq!(stats, m.units_start);
    assert_eq!(m.found_state, stats);
    for j in 0..256u32 {
        let s = stats + 6 * j;
        assert_eq!(m.sym(s), j);
        assert_eq!(m.freq(s), 1);
        assert_eq!(m.successor(s), 0);
    }
    assert_eq!(m.lo_unit, stats + 128 * 12);
    assert_eq!(m.text, m.align_offset);
    assert_eq!(m.order_fall, 6);
    assert_eq!(m.init_rl, -7);
    assert_eq!(m.run_length, -7);
}

#[test]
fn long_orders_start_the_run_at_thirteen_below() {
    let m = model(16, 1 << 20);
    assert_eq!(m.init_rl, -13);
}

#[test]
fn escape_estimators_and_binary_probabilities_start_from_their_tables() {
    let m = model(6, 1 << 20);
    assert_eq!(m.see[0].summ, 10 << 3);
    assert_eq!(m.see[24 * 16 + 15].summ, (5 * 24 + 10) << 3);
    assert_eq!(m.see[5].shift, 3);
    assert_eq!(m.see[5].count, 4);
    assert_eq!(m.bin_summ[0], (0x4000 - 0x3CDD / 2) as u16);
    assert_eq!(m.bin_summ[127 * 64 + 9], (0x4000 - 0x1F3F / 129) as u16);
}

#[test]
fn size_classes_of_the_escape_rows() {
    let m = model(6, 1 << 20);
    assert_eq!(&m.ns2index[..8], &[0, 1, 2, 3, 4, 4, 5, 5]);
    assert_eq!(m.ns2index[255], 24);
}

#[test]
fn a_binary_context_symbol_raises_its_frequency_and_the_run() {
    let mut m = model(6, 1 << 20);
    let c = m.alloc_units(0).unwrap();
    m.set_num_stats(c, 1);
    let one = m.one_state(c);
    m.set_sym(one, 65);
    m.set_freq(one, 5);
    let next = m.hi_unit;
    m.set_successor(one, next);
    m.order_fall = 0;
    let run = m.run_length;
    m.update_bin(one);
    assert_eq!(m.freq(one), 6);
    assert_eq!(m.min_context, next);
    assert_eq!(m.max_context, next);
    assert_eq!(m.prev_success, 1);
    assert_eq!(m.run_length, run + 1);
}

#[test]
fn ppmd7_allocation_takes_the_free_list_then_the_free_area() {
    let mut m = model(6, 1 << 20);
    let lo = m.lo_unit;
    assert_eq!(m.alloc_units(2), Some(lo));
    assert_eq!(m.lo_unit, lo + 3 * 12);
    m.insert_node(lo, 2);
    assert_eq!(m.free_list[2], lo);
    assert_eq!(m.alloc_units(2), Some(lo));
    assert_eq!(m.free_list[2], 0);
}

#[test]
fn gluing_merges_neighbouring_free_blocks() {
    let mut m = model(6, 1 << 20);
    let a = m.alloc_units(0).unwrap();
    let b = m.alloc_units(0).unwrap();
    assert_eq!(b, a + 12);
    m.insert_node(a, 0);
    m.insert_node(b, 0);
    m.glue_free_blocks();
    assert_eq!(m.glue_count, 255);
    // The two single units are one block of two units now.
    assert_eq!(m.free_list[0], 0);
    assert_eq!(m.free_list[1], a);
}

#[test]
fn rare_allocation_takes_the_gap_below_the_units() {
    let mut m = model(6, 1 << 20);
    m.glue_count = 1;
    m.lo_unit = m.hi_unit;
    let us = m.units_start;
    assert_eq!(m.alloc_units_rare(1), Some(us - 2 * 12));
    assert_eq!(m.units_start, us - 2 * 12);
    assert_eq!(m.glue_count, 0);
}

#[test]
fn rescale_halves_and_keeps_the_found_state_first() {
    let mut m = model(6, 1 << 20);
    let root = m.min_context;
    let stats = m.stats(root);
    let s = stats + 6 * 40;
    m.set_freq(s, 130);
    m.found_state = s;
    m.order_fall = 1;
    m.rescale();
    assert_eq!(m.found_state, stats);
    assert_eq!(m.sym(stats), 40);
    assert_eq!(m.freq(stats), ((130 + 4) % 256 + 1) / 2);
    assert_eq!(m.freq(stats + 6), 1);
    assert_eq!(m.num_stats(root), 256);
}

#[test]
fn ppmd7_first_symbol_of_a_context_counts_a_likely_symbol() {
    let mut m = model(6, 1 << 20);
    let root = m.min_context;
    let s = m.stats(root);
    let next = m.hi_unit;
    m.set_successor(s, next);
    m.set_freq(s, 200);
    m.set_freq(s, 100);
    m.order_fall = 0;
    m.found_state = s;
    let summ = m.summ_freq(root);
    let run = m.run_length;
    m.update1_0();
    assert_eq!(m.prev_success, if 2 * 100 > summ { 1 } else { 0 });
    assert_eq!(m.run_length, run + m.prev_success as i32);
    assert_eq!(m.freq(s), 104);
    assert_eq!(m.summ_freq(root), summ + 4);
    assert_eq!(m.min_context, next);
}

#[test]
fn ppmd7_later_symbol_below_its_neighbour_keeps_its_place() {
    let mut m = model(6, 1 << 20);
    let root = m.min_context;
    let stats = m.stats(root);
    let s = stats + 6 * 3;
    m.set_freq(stats + 6 * 2, 9);
    let next = m.hi_unit;
    m.set_successor(s, next);
    m.order_fall = 0;
    m.found_state = s;
    let summ = m.summ_freq(root);
    m.update1();
    assert_eq!(m.freq(s), 5);
    assert_eq!(m.sym(s), 3);
    assert_eq!(m.summ_freq(root), summ + 4);
    assert_eq!(m.found_state, s);
    assert_eq!(m.min_context, next);
}

#[test]
fn ppmd7_update2_restarts_when_the_text_reaches_the_units() {
    let mut m = model(6, 1 << 20);
    let root = m.min_context;
    m.found_state = m.stats(root) + 6 * 20;
    m.text = m.units_start - 1;
    m.order_fall = 2;
    m.update2();
    assert_eq!(m.text, m.align_offset);
    assert_eq!(m.order_fall, 6);
    assert_eq!(m.run_length, m.init_rl);
    assert_eq!(m.num_stats(m.min_context), 256);
}

#[test]
fn ppmd7_create_successors_in_the_root_makes_nothing() {
    let mut m = model(6, 1 << 20);
    let root = m.min_context;
    let hi = m.hi_unit;
    assert_eq!(m.create_successors(true), Some(root));
    assert_eq!(m.hi_unit, hi);
}

#[test]
fn ppmd7_create_successors_makes_a_context_for_the_found_state() {
    let mut m = model(6, 1 << 20);
    let root = m.min_context;
    let fs = m.stats(root) + 6 * 65;
    m.found_state = fs;
    let up = m.text;
    m.mem.wr8(up, 66);
    m.set_successor(fs, up);
    let hi = m.hi_unit;
    let c = m.create_successors(false).unwrap();
    assert_eq!(c, hi - 12);
    assert_eq!(m.num_stats(c), 1);
    let one = m.one_state(c);
    assert_eq!(m.sym(one), 66);
    assert_eq!(m.successor(one), up + 1);
    assert_eq!(m.suffix(c), root);
    assert_eq!(m.successor(fs), c);
}

#[test]
fn ppmd7_splitting_a_block_files_its_tail() {
    let mut m = model(6, 1 << 20);
    let ptr = m.alloc_units(4).unwrap();
    m.split_block(ptr, 4, 0);
    assert_eq!(m.free_list[3], ptr + 12);
    assert_eq!(m.free_list[0], ptr + 12 + 4 * 12);
}

#[test]
fn ppmd7_swapping_states_exchanges_their_fields() {
    let mut m = model(6, 1 << 20);
    let stats = m.stats(m.min_context);
    let (a, b) = (stats, stats + 6 * 9);
    m.set_successor(a, 0x1111);
    m.set_successor(b, 0x2222);
    m.set_freq(b, 7);
    m.swap_states(a, b);
    assert_eq!((m.sym(a), m.freq(a), m.successor(a)), (9, 7, 0x2222));
    assert_eq!((m.sym(b), m.freq(b), m.successor(b)), (0, 1, 0x1111));
    m.copy_state(a, b);
    assert_eq!((m.sym(b), m.freq(b), m.successor(b)), (9, 7, 0x2222));
}

#[test]
fn ppmd7_update2_from_a_fresh_root_writes_the_symbol_to_the_text() {
    let mut m = model(6, 1 << 20);
    let root = m.min_context;
    let text = m.text;
    let s = m.stats(root) + 6 * 97;
    m.found_state = s;
    m.run_length = 3;
    m.update2();
    assert_eq!(m.freq(s), 5);
    assert_eq!(m.summ_freq(root), 261);
    assert_eq!(m.mem.rd8(text), 97);
    assert_eq!(m.text, text + 1);
    assert_eq!(m.successor(s), text + 1);
    assert_eq!(m.run_length, m.init_rl);
    assert_eq!(m.min_context, root);
    assert_eq!(m.max_context, root);
    assert_eq!(m.order_fall, 6);
}

#[test]
fn ppmd7_first_state_of_a_fresh_root_goes_to_the_text() {
    let mut m = model(6, 1 << 20);
    let root = m.min_context;
    let text = m.text;
    let s = m.found_state;
    let run = m.run_length;
    m.update1_0();
    assert_eq!(m.freq(s), 5);
    assert_eq!(m.summ_freq(root), 261);
    assert_eq!(m.prev_success, 0);
    assert_eq!(m.run_length, run);
    assert_eq!(m.mem.rd8(text), 0);
    assert_eq!(m.text, text + 1);
    assert_eq!(m.successor(s), text + 1);
    assert_eq!(m.min_context, root);
}

#[test]
fn ppmd7_encoding_the_first_symbol_of_a_fresh_model_writes_it_to_the_text() {
    let mut m = model(6, 1 << 20);
    let root = m.min_context;
    let text = m.text;
    let s = m.stats(root);
    m.encode_symbol(0);
    assert_eq!(m.found_state, s);
    assert_eq!(m.freq(s), 5);
    assert_eq!(m.summ_freq(root), 261);
    assert_eq!(m.mem.rd8(text), 0);
    assert_eq!(m.text, text + 1);
    assert_eq!(m.successor(s), text + 1);
    assert_eq!(m.min_context, root);
    assert_eq!(m.max_context, root);
}

#[test]
fn ppmd7_later_symbol_of_a_fresh_root_moves_ahead_and_goes_to_the_text() {
    let mut m = model(6, 1 << 20);
    let root = m.min_context;
    let text = m.text;
    let stats = m.stats(root);
    let s = stats + 6 * 120;
    m.found_state = s;
    m.update1();
    let fs = stats + 6 * 119;
    assert_eq!(m.found_state, fs);
    assert_eq!(m.sym(fs), 120);
    assert_eq!(m.freq(fs), 5);
    assert_eq!(m.successor(fs), text + 1);
    assert_eq!(m.sym(s), 119);
    assert_eq!(m.freq(s), 1);
    assert_eq!(m.summ_freq(root), 261);
    assert_eq!(m.mem.rd8(text), 120);
    assert_eq!(m.text, text + 1);
    assert_eq!(m.min_context, root);
}

#[test]
fn ppmd7_decoding_a_later_symbol_of_a_fresh_model_finds_its_state() {
    let mut enc = model(6, 1 << 20);
    enc.encode_symbol(65);
    enc.rc.flush();
    let bytes = enc.rc.writer.as_slice().to_vec();
    let rc = ppmd_rust::range_coding::RangeDecoder7a::new(ppmd_rust::ByteReader::new(bytes)).unwrap();
    let mut dec = Ppmd7::construct(rc, 6, 1 << 20);
    let root = dec.min_context;
    let text = dec.text;
    assert_eq!(dec.decode_symbol(), Ok(65));
    assert_eq!(dec.mem.rd8(text), 65);
    assert_eq!(dec.min_context, root);
}

#[test]
fn ppmd7_encoding_a_later_symbol_takes_its_part_after_the_states_before_it() {
    let mut m = model(6, 1 << 20);
    let range = m.rc.range;
    let low = m.rc.low;
    m.encode_symbol(3);
    // The root's sum is 257; the symbol's part starts after three states of frequency
    // one and is one unit wide, wide enough that no byte is shifted out.
    let unit = range / 257;
    assert_eq!(m.rc.low, low.wrapping_add(3 * unit));
    assert_eq!(m.rc.range, unit);
}

#[test]
fn ppmd7_create_successors_estimates_the_frequency_from_the_root() {
    let mut m = model(6, 1 << 20);
    let root = m.min_context;
    let fs = m.stats(root) + 6 * 65;
    m.found_state = fs;
    let next = m.stats(root) + 6 * 66;
    m.set_freq(next, 20);
    let summ = m.summ_freq(root);
    m.set_summ_freq(root, (summ + 19) as u16);
    let up = m.text;
    m.mem.wr8(up, 66);
    m.set_successor(fs, up);
    let hi = m.hi_unit;
    let c = m.create_successors(false).unwrap();
    assert_eq!(c, hi - 12);
    // cf = 19 and s0 = 276 - 256 - 19 = 1, so the estimate is 1 + (38 + 3 - 1) / 2.
    assert_eq!(m.freq(m.one_state(c)), 21);
}

#[test]
fn ppmd7_rescale_rebuilds_the_sum_and_keeps_the_others_in_order() {
    let mut m = model(6, 1 << 20);
    let root = m.min_context;
    let stats = m.stats(root);
    let s = stats + 6 * 10;
    m.set_freq(s, 130);
    m.set_summ_freq(root, 386);
    m.found_state = s;
    m.order_fall = 6;
    m.rescale();
    // The found state: (130 + 4 + 1) / 2; each other state: (1 + 1) / 2.
    assert_eq!(m.sym(stats), 10);
    assert_eq!(m.freq(stats), 67);
    for j in 1..256u32 {
        let expect = if j <= 10 { j - 1 } else { j };
        assert_eq!(m.sym(stats + 6 * j), expect);
        assert_eq!(m.freq(stats + 6 * j), 1);
    }
    // The escape frequency 386 - 385 = 1 keeps 1 - 0 of it.
    assert_eq!(m.summ_freq(root), 67 + 255 + 1);
    assert_eq!(m.found_state, stats);
}

#[test]
fn ppmd7_update_model_adds_the_symbol_to_the_context_it_escaped_from() {
    let mut m = model(6, 1 << 20);
    let root = m.min_context;
    let text = m.text;
    // A context of three states one order above the root, in the unit below the
    // free area's top, with its states in the two units below it.
    let c = m.hi_unit - 12;
    let stats = m.hi_unit - 36;
    m.set_num_stats(c, 3);
    m.set_summ_freq(c, 10);
    m.set_stats(c, stats);
    m.set_suffix(c, root);
    for j in 0..3u32 {
        m.set_sym(stats + 6 * j, 10 + j as u8);
        m.set_freq(stats + 6 * j, 3);
        m.set_successor(stats + 6 * j, 0);
    }
    let fs = m.stats(root) + 6 * 65;
    m.set_freq(fs, 40);
    let summ = m.summ_freq(root);
    m.set_summ_freq(root, (summ + 39) as u16);
    m.set_successor(fs, c);
    m.found_state = fs;
    m.max_context = c;
    m.order_fall = 2;
    m.update_model();
    assert_eq!(m.mem.rd8(text), 65);
    assert_eq!(m.text, text + 1);
    assert_eq!(m.order_fall, 1);
    assert_eq!(m.num_stats(c), 4);
    let st = stats + 18;
    assert_eq!(m.sym(st), 65);
    assert_eq!(m.successor(st), text + 1);
    // The sum becomes 10 + 1 + 2 = 13, s0 = 296 - 256 - 39 = 1, and
    // cf = 2 * 40 * 19 = 1520 is at least 15 * 14.
    assert_eq!(m.freq(st), 7);
    assert_eq!(m.summ_freq(c), 20);
    assert_eq!(m.min_context, c);
    assert_eq!(m.max_context, c);
}

fn ppmd7_snapshot(m: &Ppmd7<RangeEncoder7a>) -> (Vec<u32>, Vec<u8>, Vec<u32>, Vec<u16>) {
    let fields = vec![
        m.min_context, m.max_context, m.found_state, m.order_fall, m.init_esc, m.prev_success,
        m.run_length as u32, m.init_rl as u32, m.glue_count, m.lo_unit, m.hi_unit, m.text,
        m.units_start, m.hi_bits_flag,
    ];
    let bytes: Vec<u8> = (0..m.mem.len() as u32).map(|i| m.mem.rd8(i)).collect();
    let see: Vec<u32> = m.see.iter().map(|s| s.summ as u32 | (s.shift as u32) << 16 | (s.count as u32) << 24).chain(m.free_list.iter().cloned()).collect();
    (fields, bytes, see, m.bin_summ.clone())
}

#[test]
fn ppmd7_restarting_twice_is_restarting_once() {
    let mut m = model(6, 1 << 16);
    let root = m.min_context;
    let fs = m.stats(root) + 6 * 97;
    m.set_freq(fs, 30);
    m.set_summ_freq(root, 286);
    m.mem.wr8(m.text, 97);
    m.text += 1;
    m.order_fall = 3;
    m.restart_model();
    let once = ppmd7_snapshot(&m);
    assert_eq!(m.freq(fs), 1);
    assert_eq!(m.summ_freq(root), 257);
    m.restart_model();
    assert!(ppmd7_snapshot(&m) == once);
}

#[test]
fn ppmd7_shrinking_moves_states_or_files_the_tail() {
    let mut m = model(6, 1 << 20);
    let big = m.alloc_units(5).unwrap();
    let small = m.alloc_units(1).unwrap();
    m.insert_node(small, 1);
    m.mem.wr32(big + 4, 0x0102_0304);
    assert_eq!(m.shrink_units(big, 8, 2), small);
    assert_eq!(m.mem.rd32(small + 4), 0x0102_0304);
    assert_eq!(m.free_list[5], big);
    assert_eq!(m.free_list[1], 0);
    // With no free block of two units, the six units of the tail go back instead.
    let again = m.alloc_units(5).unwrap();
    assert_eq!(again, big);
    assert_eq!(m.shrink_units(again, 8, 2), again);
    assert_eq!(m.free_list[4], again + 2 * 12);
}
