use ppmd_rust::ppmd8::model::{exp_escape_exec, hi_bits_flag3, hi_bits_flag4};
use ppmd_rust::ppmd8::update::scale_freq;
use ppmd_rust::ppmd8::{build_ns2bs_index, build_ns2index, build_unit_tables, See, SeeSource};
use ppmd_rust::range_coding::RangeEncoder7a;
use ppmd_rust::{ByteReader, ByteWriter, Error, IoError, Ppmd8, RestoreMethod};

fn encoder_model(order: u32, mem: u32, method: RestoreMethod) -> Ppmd8<RangeEncoder7a> {
    Ppmd8::new_encoder(ByteWriter::new(Vec::new()), order, mem, method).unwrap()
}

/// Drives the model through one symbol the way the symbol coder does: the symbol is
/// looked up in the current context and, past escapes, in the suffixes that have more
/// states, and the model is updated as the coder would after coding it.
fn model_symbol(m: &mut Ppmd8<RangeEncoder7a>, sym: u32) {
    let mc = m.min_context;
    let ns = m.num_stats(mc);
    let num_masked;
    if ns == 0 {
        let one = m.single_state(mc);
        if m.sym(one) == sym {
            m.update_bin(one);
            return;
        }
        m.prev_success = 0;
        num_masked = 0;
    } else {
        let stats = m.stats(mc);
        for i in 0..=ns {
            let s = stats.wrapping_add(6 * i);
            if m.sym(s) == sym {
                m.found_state = s;
                if i == 0 {
                    m.update1_0();
                } else {
                    m.prev_success = 0;
                    m.update1();
                }
                return;
            }
        }
        m.prev_success = 0;
        num_masked = ns;
    }
    let mut mc = mc;
    loop {
        loop {
            m.order_fall += 1;
            let suffix = m.suffix(mc);
            assert_ne!(suffix, 0, "the symbol must be in the order-0 context");
            mc = suffix;
            if m.num_stats(mc) != num_masked {
                break;
            }
        }
        m.min_context = mc;
        let ns = m.num_stats(mc);
        let stats = m.stats(mc);
        for i in 0..=ns {
            let s = stats.wrapping_add(6 * i);
            if m.sym(s) == sym {
                m.found_state = s;
                m.update2();
                return;
            }
        }
    }
}

fn root_of(m: &Ppmd8<RangeEncoder7a>) -> u32 {
    let mut c = m.min_context;
    for _ in 0..64 {
        let s = m.suffix(c);
        if s == 0 {
            return c;
        }
        c = s;
    }
    panic!("the suffixes must end");
}

fn sample_text() -> Vec<u8> {
    let mut v = Vec::new();
    for i in 0..400u32 {
        v.extend_from_slice(format!("line {} of the model test, {}\n", i, i % 7).as_bytes());
    }
    v.extend(0..=255u8);
    v
}

#[test]
fn unit_tables_have_the_size_classes() {
    let (index2units, units2index) = build_unit_tables();
    assert_eq!(
        &index2units[..38],
        &[
            1, 2, 3, 4, 6, 8, 10, 12, 15, 18, 21, 24, 28, 32, 36, 40, 44, 48, 52, 56, 60, 64, 68,
            72, 76, 80, 84, 88, 92, 96, 100, 104, 108, 112, 116, 120, 124, 128
        ]
    );
    assert_eq!(units2index.len(), 128);
    assert_eq!(units2index[0], 0);
    assert_eq!(units2index[4], 4);
    assert_eq!(units2index[5], 4);
    assert_eq!(units2index[6], 5);
    assert_eq!(units2index[127], 37);
}

#[test]
fn suffix_size_table_has_four_classes() {
    let t = build_ns2bs_index();
    assert_eq!(t.len(), 256);
    assert_eq!(&t[..3], &[0, 2, 4]);
    assert_eq!(t[10], 4);
    assert_eq!(t[11], 6);
    assert_eq!(t[255], 6);
}

#[test]
fn state_count_table_grows_by_runs() {
    let t = build_ns2index();
    assert_eq!(t.len(), 260);
    assert_eq!(&t[..12], &[0, 1, 2, 3, 4, 5, 6, 6, 7, 7, 7, 8]);
    assert_eq!(t[235], 25);
    assert_eq!(t[236], 26);
    assert_eq!(t[257], 26);
}

#[test]
fn escape_estimates_and_flags() {
    assert_eq!(exp_escape_exec(0), 25);
    assert_eq!(exp_escape_exec(4), 5);
    assert_eq!(exp_escape_exec(11), 3);
    assert_eq!(exp_escape_exec(15), 2);
    assert_eq!(hi_bits_flag3(0x3F), 0);
    assert_eq!(hi_bits_flag3(0x40), 8);
    assert_eq!(hi_bits_flag4(0x3F), 0);
    assert_eq!(hi_bits_flag4(0xFF), 16);
    assert_eq!(scale_freq(5, 1), 3);
    assert_eq!(scale_freq(5, 0), 5);
    assert_eq!(scale_freq(255, 1), 128);
}

#[test]
fn see_update_widens_its_period() {
    let mut e = See { summ: 100, shift: 3, count: 2 };
    e.update();
    assert_eq!(e, See { summ: 100, shift: 3, count: 1 });
    e.update();
    assert_eq!(e, See { summ: 200, shift: 4, count: 24 });
    let mut top = See { summ: 7, shift: 7, count: 1 };
    top.update();
    assert_eq!(top, See { summ: 7, shift: 7, count: 1 });
    let mut wrap = See { summ: 0x9000, shift: 2, count: 1 };
    wrap.update();
    assert_eq!(wrap, See { summ: 0x2000, shift: 3, count: 12 });
}

#[test]
fn model_checks_its_parameters() {
    for (order, mem) in [(1, 1 << 20), (17, 1 << 20), (6, 0x7FF), (6, 0xFFFF_FFDC)] {
        assert!(matches!(
            Ppmd8::new_encoder(ByteWriter::new(Vec::new()), order, mem, RestoreMethod::Restart),
            Err(Error::InvalidParameter)
        ));
        assert!(matches!(
            Ppmd8::new_decoder(ByteReader::new(vec![0, 0, 0, 0]), order, mem, RestoreMethod::Restart),
            Err(Error::InvalidParameter)
        ));
    }
}

#[test]
fn model_decoder_checks_the_stream_start() {
    assert!(matches!(
        Ppmd8::new_decoder(ByteReader::new(vec![1, 2, 3]), 6, 1 << 20, RestoreMethod::Restart),
        Err(Error::IoError(IoError::UnexpectedEof))
    ));
    assert!(matches!(
        Ppmd8::new_decoder(ByteReader::new(vec![0xFF; 4]), 6, 1 << 20, RestoreMethod::CutOff),
        Err(Error::RangeDecoderInitialization)
    ));
    let mut d =
        Ppmd8::new_decoder(ByteReader::new(vec![0, 0, 1, 2, 9]), 6, 1 << 20, RestoreMethod::CutOff)
            .unwrap();
    assert_eq!(d.range_decoder_code(), 0x0102);
    assert_eq!(d.get_ref().position(), 4);
    assert_eq!(d.get_mut().read_byte(), Ok(9));
    assert_eq!(d.into_inner().remaining().len(), 0);
}

#[test]
fn model_starts_with_all_symbols_in_the_root() {
    let m = encoder_model(6, 1 << 20, RestoreMethod::Restart);
    let size = 1u32 << 20;
    let area = size / 8 / 12 * 7 * 12;
    assert_eq!(m.align_offset, 0);
    assert_eq!(m.text, 0);
    assert_eq!(m.hi_unit, size - 12);
    assert_eq!(m.units_start, size - area);
    assert_eq!(m.lo_unit, m.units_start + 128 * 12);
    assert_eq!(m.min_context, m.hi_unit);
    assert_eq!(m.max_context, m.hi_unit);
    assert_eq!(m.order_fall, 6);
    assert_eq!(m.init_rl, -7);
    assert_eq!(m.run_length, -7);
    let root = m.min_context;
    assert_eq!(m.num_stats(root), 255);
    assert_eq!(m.summ_freq(root), 257);
    assert_eq!(m.suffix(root), 0);
    let stats = m.stats(root);
    assert_eq!(stats, m.units_start);
    for i in 0..256u32 {
        assert_eq!(m.sym(stats + 6 * i), i);
        assert_eq!(m.freq(stats + 6 * i), 1);
        assert_eq!(m.successor(stats + 6 * i), 0);
    }
    assert_eq!(m.get_used_memory(), 12 + 128 * 12);
    let deep = encoder_model(16, 0x801, RestoreMethod::CutOff);
    assert_eq!(deep.align_offset, 3);
    assert_eq!(deep.init_rl, -13);
}

#[test]
fn model_encoder_flushes_its_low() {
    let mut m = encoder_model(6, 1 << 20, RestoreMethod::Restart);
    m.rc.low = 0x0102_0304;
    m.flush_range_encoder();
    assert_eq!(m.get_ref().as_slice(), &[1, 2, 3, 4]);
    m.get_mut().write_byte(5);
    assert_eq!(m.into_inner().into_inner(), vec![1, 2, 3, 4, 5]);
}

#[test]
fn root_context_uses_the_fixed_escape() {
    let mut m = encoder_model(6, 1 << 20, RestoreMethod::Restart);
    let mut esc = 0u32;
    assert_eq!(m.make_esc_freq(0, &mut esc), SeeSource::Dummy);
    assert_eq!(esc, 1);
    assert_eq!(m.get_see(SeeSource::Dummy), See { summ: 0, shift: 7, count: 64 });
}

#[test]
fn escape_estimator_lowers_by_its_estimate() {
    let mut m = encoder_model(6, 1 << 20, RestoreMethod::Restart);
    let root = m.min_context;
    m.set_num_stats(root, 3);
    m.set_summ_freq(root, 40);
    let (row, col) = m.calculate_see_table_hash(1, 3);
    assert_eq!((row, col), (2, 0));
    let before = m.get_see(SeeSource::Table(row, col));
    assert_eq!(before, See { summ: 88, shift: 3, count: 7 });
    let mut esc = 0u32;
    assert_eq!(m.make_esc_freq(1, &mut esc), SeeSource::Table(2, 0));
    assert_eq!(esc, 11);
    assert_eq!(m.get_see(SeeSource::Table(2, 0)).summ, 77);
    m.set_see(SeeSource::Table(2, 0), See { summ: 5, shift: 2, count: 1 });
    assert_eq!(m.get_see(SeeSource::Table(2, 0)), See { summ: 5, shift: 2, count: 1 });
    m.set_summ_freq(root, 100);
    m.set_flags(root, 8);
    assert_eq!(m.calculate_see_table_hash(9, 3), (2, 1 + 2 + 8));
}

#[test]
fn masking_clears_the_symbols_walked() {
    let m = encoder_model(6, 1 << 20, RestoreMethod::Restart);
    let stats = m.stats(m.min_context);
    let mut mask = vec![0xFFu8; 256];
    m.mask_symbols(&mut mask, stats + 6 * 10, stats);
    for j in 0..256 {
        let expect = if j <= 10 { 0 } else { 0xFF };
        assert_eq!(mask[j], expect, "symbol {}", j);
    }
    let mut mask = vec![0xFFu8; 256];
    m.mask_symbols(&mut mask, stats + 6 * 3, stats + 6 * 7);
    for j in 0..256 {
        let expect = if j == 3 || j == 7 || j == 8 { 0 } else { 0xFF };
        assert_eq!(mask[j], expect, "symbol {}", j);
    }
}

#[test]
fn first_symbol_raises_its_frequency() {
    let mut m = encoder_model(6, 1 << 20, RestoreMethod::Restart);
    let root = m.min_context;
    let stats = m.stats(root);
    m.found_state = stats;
    m.update1_0();
    assert_eq!(m.prev_success, 0);
    assert_eq!(m.freq(stats), 5);
    assert_eq!(m.summ_freq(root), 261);
    assert_eq!(m.text, 1);
    assert_eq!(m.mem.rd8(0), 0);
    assert_eq!(m.successor(stats), 1);
    assert_eq!(m.order_fall, 6);
    assert_eq!(m.min_context, root);
}

#[test]
fn later_symbol_moves_ahead_of_a_rarer_one() {
    let mut m = encoder_model(6, 1 << 20, RestoreMethod::Restart);
    let root = m.min_context;
    let stats = m.stats(root);
    m.found_state = stats + 6 * 65;
    m.update1();
    assert_eq!(m.sym(stats + 6 * 64), 65);
    assert_eq!(m.freq(stats + 6 * 64), 5);
    assert_eq!(m.sym(stats + 6 * 65), 64);
    assert_eq!(m.freq(stats + 6 * 65), 1);
    assert_eq!(m.summ_freq(root), 261);
}

#[test]
fn update_at_full_order_moves_to_the_successor() {
    let mut m = encoder_model(6, 1 << 20, RestoreMethod::Restart);
    let root = m.min_context;
    let stats = m.stats(root);
    // The root stands in for the context that follows each symbol.
    m.set_successor(stats, root);
    m.found_state = stats;
    m.order_fall = 0;
    let rl = m.run_length;
    m.update1_0();
    assert_eq!((m.min_context, m.max_context), (root, root));
    assert_eq!(m.freq(stats), 5);
    assert_eq!(m.summ_freq(root), 257 + 4);
    assert_eq!(m.prev_success, 0);
    assert_eq!(m.run_length, rl);

    let s = stats + 6 * 5;
    m.set_successor(s, root);
    m.found_state = s;
    m.update1();
    assert_eq!(m.found_state, stats + 6 * 4);
    assert_eq!((m.sym(stats + 6 * 4), m.freq(stats + 6 * 4), m.successor(stats + 6 * 4)), (5, 5, root));
    assert_eq!((m.sym(s), m.freq(s), m.successor(s)), (4, 1, 0));
    assert_eq!(m.summ_freq(root), 257 + 8);
    assert_eq!((m.min_context, m.max_context), (root, root));
}

#[test]
fn binary_symbol_returns_its_symbol() {
    let mut m = encoder_model(6, 1 << 20, RestoreMethod::Restart);
    for &b in b"abcabcabc" {
        model_symbol(&mut m, b as u32);
    }
    let mc = m.min_context;
    assert_eq!(m.num_stats(mc), 0);
    let one = m.single_state(mc);
    let expected = m.sym(one) as u8;
    let freq = m.freq(one);
    let run = m.run_length;
    assert!(m.get_bin_summ().is_some());
    assert_eq!(m.update_bin(one), expected);
    assert_eq!(m.prev_success, 1);
    assert_eq!(m.run_length, run + 1);
    let raised = if freq < 196 { freq + 1 } else { freq };
    assert_eq!(m.freq(one), raised);
}

#[test]
fn rescale_halves_and_sorts() {
    let mut m = encoder_model(6, 1 << 20, RestoreMethod::Restart);
    let root = m.min_context;
    let stats = m.stats(root);
    for i in 0..256u32 {
        m.set_freq(stats + 6 * i, (i % 50 + 1) as u8);
    }
    let total: u32 = (0..256u32).map(|i| i % 50 + 1).sum();
    m.set_summ_freq(root, total as u16);
    m.found_state = stats + 6 * 200;
    m.order_fall = 0;
    m.rescale();
    assert_eq!(m.found_state, m.stats(root));
    assert_eq!(m.freq(m.found_state), 25);
    let ns = m.num_stats(root);
    assert_eq!(ns, 255 - 5);
    let mut prev = 255;
    let mut sum = 0;
    for i in 0..=ns {
        let f = m.freq(stats + 6 * i);
        assert!(f <= prev);
        assert!(f > 0);
        prev = f;
        sum += f;
    }
    assert_eq!(m.summ_freq(root), sum + 5 - 5 / 2);
    assert_eq!(m.flags(root) & 4, 4);
}

#[test]
fn cut_off_keeps_a_fresh_model() {
    let mut m = encoder_model(6, 1 << 20, RestoreMethod::CutOff);
    let root = m.min_context;
    assert_eq!(m.cut_off(root, 0), root);
    assert_eq!(m.num_stats(root), 255);
}

#[test]
fn cut_off_frees_a_binary_context_that_leads_nowhere() {
    let mut m = encoder_model(6, 1 << 20, RestoreMethod::CutOff);
    let c = m.alloc_units(0).unwrap();
    m.set_num_stats(c, 0);
    let one = m.single_state(c);
    m.set_sym(one, 65);
    m.set_freq(one, 3);
    m.set_successor(one, 0);
    assert_eq!(m.cut_off(c, 1), 0);
    assert_eq!(m.free_list[0], c);
}

#[test]
fn used_memory_grows_with_the_model() {
    let mut m = encoder_model(4, 1 << 20, RestoreMethod::Restart);
    let start = m.get_used_memory();
    for &b in sample_text().iter().take(2000) {
        model_symbol(&mut m, b as u32);
    }
    assert!(m.get_used_memory() > start);
    assert!(m.get_used_memory() <= 1 << 20);
}

#[test]
fn model_stays_whole_over_a_text() {
    for method in [RestoreMethod::Restart, RestoreMethod::CutOff] {
        for (order, mem) in [(2, 0x800), (6, 0x2000), (16, 1 << 16), (8, 1 << 20)] {
            let mut m = encoder_model(order, mem, method);
            for &b in sample_text().iter() {
                model_symbol(&mut m, b as u32);
                let root = root_of(&m);
                assert_eq!(m.num_stats(root), 255);
            }
        }
    }
}

#[test]
fn small_memory_restarts_the_model() {
    let mut m = encoder_model(16, 0x800, RestoreMethod::Restart);
    let mut restarted = false;
    for &b in sample_text().iter().take(3000) {
        model_symbol(&mut m, b as u32);
        if m.text == m.align_offset && m.order_fall == 16 {
            restarted = true;
        }
    }
    assert!(restarted);
}

#[test]
fn restore_to_the_same_context_keeps_the_root() {
    let mut m = encoder_model(6, 1 << 20, RestoreMethod::Restart);
    for &b in b"hello hello" {
        model_symbol(&mut m, b as u32);
    }
    let mc = m.max_context;
    m.restore_model(mc);
    assert_eq!(m.min_context, m.max_context);
    assert_eq!(m.num_stats(root_of(&m)), 255);
}

#[test]
fn free_list_gives_back_the_last_block_first() {
    let mut m = encoder_model(6, 1 << 20, RestoreMethod::Restart);
    let head = m.free_list[3];
    let count = m.stamps[3];
    let block = m.lo_unit;
    m.insert_node(block, 3);
    assert_eq!(m.free_list[3], block);
    assert_eq!(m.stamps[3], count + 1);
    assert_eq!(m.mem.rd32(block), 0xFFFF_FFFF);
    assert_eq!(m.mem.rd32(block + 4), head);
    assert_eq!(m.mem.rd32(block + 8), 4);
    assert_eq!(m.remove_node(3), block);
    assert_eq!(m.free_list[3], head);
    assert_eq!(m.stamps[3], count);
}

#[test]
fn allocation_takes_the_free_list_then_the_free_area() {
    let mut m = encoder_model(6, 1 << 20, RestoreMethod::Restart);
    let lo = m.lo_unit;
    assert_eq!(m.alloc_units(2), Some(lo));
    assert_eq!(m.lo_unit, lo + 3 * 12);
    m.insert_node(lo, 2);
    assert_eq!(m.alloc_units(2), Some(lo));
    assert_eq!(m.lo_unit, lo + 3 * 12);
}

#[test]
fn used_memory_counts_free_list_blocks() {
    let mut m = encoder_model(6, 1 << 20, RestoreMethod::Restart);
    let start = m.get_used_memory();
    // The root context and its 256 states.
    assert_eq!(start, 129 * 12);
    let b = m.alloc_units(3).unwrap();
    assert_eq!(m.get_used_memory(), start + 4 * 12);
    m.insert_node(b, 3);
    assert_eq!(m.get_used_memory(), start);
    assert_eq!(m.alloc_units(3), Some(b));
    assert_eq!(m.get_used_memory(), start + 4 * 12);
}

#[test]
fn rare_allocation_takes_a_larger_block_or_the_gap_below_the_contexts() {
    let mut m = encoder_model(6, 1 << 20, RestoreMethod::Restart);
    m.glue_count = 1;
    let big = m.alloc_units(3).unwrap();
    m.insert_node(big, 3);
    assert_eq!(m.alloc_units_rare(1), Some(big));
    assert_eq!(m.glue_count, 1);
    // The two units beyond the first two went back to the list of their class.
    assert_eq!(m.free_list[1], big + 2 * 12);
    let us = m.units_start;
    let got = m.alloc_units_rare(5);
    assert_eq!(got, Some(us - 8 * 12));
    assert_eq!(m.units_start, us - 8 * 12);
    assert_eq!(m.glue_count, 0);
}

#[test]
fn gluing_empties_the_free_lists_into_one_chain() {
    let mut m = encoder_model(6, 1 << 20, RestoreMethod::Restart);
    let a = m.alloc_units(3).unwrap();
    let b = m.alloc_units(0).unwrap();
    m.insert_node(b, 0);
    m.insert_node(a, 3);
    let head = m.glue_blocks();
    assert!(m.free_list.iter().all(|&x| x == 0));
    // The block of four units swallowed the unit that follows it.
    assert_eq!(head, b);
    assert_eq!(m.mem.rd32(b + 4), a);
    assert_eq!(m.mem.rd32(a + 8), 5);
}

#[test]
fn shrinking_moves_states_into_a_free_smaller_block() {
    let mut m = encoder_model(6, 1 << 20, RestoreMethod::Restart);
    let big = m.alloc_units(5).unwrap();
    let small = m.alloc_units(1).unwrap();
    m.insert_node(small, 1);
    m.mem.wr32(big, 0x0102_0304);
    assert_eq!(m.shrink_units(big, 8, 2), small);
    assert_eq!(m.mem.rd32(small), 0x0102_0304);
    assert_eq!(m.free_list[5], big);
    assert_eq!(m.free_list[1], 0);
    assert_eq!(m.shrink_units(small, 2, 2), small);
    assert_eq!(m.shrink_units(small, 0, 1), small);
}

#[test]
fn scaling_states_counts_dropped_frequencies_as_escapes() {
    let mut m = encoder_model(6, 1 << 20, RestoreMethod::Restart);
    let root = m.min_context;
    let stats = m.stats(root);
    // Three states remain of a context whose sum also counted two dropped ones.
    m.set_freq(stats, 9);
    m.set_freq(stats + 6, 4);
    m.set_freq(stats + 12, 1);
    m.set_summ_freq(root, 9 + 4 + 1 + 7 + 3);
    m.set_flags(root, 16 + 8 + 4);
    m.scale_states(root, stats, 2, 1);
    assert_eq!(m.freq(stats), 5);
    assert_eq!(m.freq(stats + 6), 2);
    assert_eq!(m.freq(stats + 12), 1);
    assert_eq!(m.summ_freq(root), 5 + 2 + 1 + (10 + 1) / 2);
    // Symbols 0, 1 and 2 are all below 0x40; the high-previous and rescaled bits stay.
    assert_eq!(m.flags(root), 16 + 4);
    let mut m = encoder_model(6, 1 << 20, RestoreMethod::Restart);
    let stats = m.stats(root);
    m.set_sym(stats + 6, 0x41);
    m.set_summ_freq(root, 3);
    m.set_flags(root, 4);
    m.scale_states(root, stats, 1, 0);
    assert_eq!(m.summ_freq(root), 2 + 1);
    assert_eq!(m.flags(root), 8);
}

#[test]
fn refresh_moves_and_rescales_the_remaining_states() {
    let mut m = encoder_model(6, 1 << 20, RestoreMethod::Restart);
    let root = m.min_context;
    let stats = m.stats(root);
    // Three of the 256 states remain; a free block of two units is waiting.
    m.set_num_stats(root, 2);
    m.set_freq(stats, 10);
    m.set_freq(stats + 6, 6);
    m.set_freq(stats + 12, 2);
    m.set_successor(stats + 6, 777);
    m.set_summ_freq(root, 10 + 6 + 2 + 5);
    m.set_flags(root, 16 + 4);
    let small = m.alloc_units(1).unwrap();
    m.insert_node(small, 1);
    m.refresh(root, 128, 0);
    assert_eq!(m.stats(root), small);
    assert_eq!((m.sym(small), m.freq(small)), (0, 10));
    assert_eq!((m.sym(small + 6), m.freq(small + 6), m.successor(small + 6)), (1, 6, 777));
    assert_eq!((m.sym(small + 12), m.freq(small + 12)), (2, 2));
    assert_eq!(m.summ_freq(root), 10 + 6 + 2 + 5);
    assert_eq!(m.flags(root), 16);
    assert_eq!(m.free_list[m.units2index[127] as usize], stats);

    // Without a free block the states stay where they are and are halved.
    let mut m = encoder_model(6, 1 << 20, RestoreMethod::Restart);
    let stats = m.stats(root);
    m.set_num_stats(root, 2);
    m.set_freq(stats, 10);
    m.set_freq(stats + 6, 6);
    m.set_freq(stats + 12, 2);
    m.set_summ_freq(root, 10 + 6 + 2 + 5);
    m.set_flags(root, 16 + 4);
    m.refresh(root, 128, 1);
    assert_eq!(m.stats(root), stats);
    assert_eq!((m.freq(stats), m.freq(stats + 6), m.freq(stats + 12)), (5, 3, 1));
    assert_eq!(m.summ_freq(root), 5 + 3 + 1 + (5 + 1) / 2);
    assert_eq!(m.flags(root), 16 + 4);
}

#[test]
fn rescale_after_a_fall_back_keeps_all_states_sorted() {
    let mut m = encoder_model(6, 1 << 20, RestoreMethod::Restart);
    let root = m.min_context;
    let stats = m.stats(root);
    for i in 0..256u32 {
        m.set_freq(stats + 6 * i, (i % 50 + 1) as u8);
    }
    let total: u32 = (0..256u32).map(|i| i % 50 + 1).sum();
    m.set_summ_freq(root, total as u16);
    m.found_state = stats + 6 * 120;
    m.order_fall = 2;
    m.rescale();
    assert_eq!(m.num_stats(root), 255);
    assert_eq!(m.found_state, stats);
    let mut prev = 255;
    let mut sum = 0;
    for i in 0..256u32 {
        let f = m.freq(stats + 6 * i);
        assert!(f >= 1 && f <= prev);
        prev = f;
        sum += f;
    }
    // The found state (frequency 21) went first with (21 + 4 + 1) / 2; the others
    // were halved rounding up.
    let expected: u32 = (0..256u32)
        .map(|i| if i == 120 { (21 + 4 + 1) / 2 } else { (i % 50 + 1 + 1) / 2 })
        .sum();
    assert_eq!(sum, expected);
    assert_eq!(m.summ_freq(root), sum);
    assert_eq!(m.flags(root), 4);
    // Every symbol is still there, with its halved frequency.
    let mut got: Vec<(u32, u32)> = (0..256u32).map(|i| (m.sym(stats + 6 * i), m.freq(stats + 6 * i))).collect();
    got.sort();
    let want: Vec<(u32, u32)> = (0..256u32)
        .map(|i| (i, if i == 120 { (21 + 4 + 1) / 2 } else { (i % 50 + 1 + 1) / 2 }))
        .collect();
    assert_eq!(got, want);

    // An escape frequency of 11 beyond the states' frequencies is halved, rounding up.
    let mut m = encoder_model(6, 1 << 20, RestoreMethod::Restart);
    let stats = m.stats(root);
    m.set_summ_freq(root, 256 + 11);
    m.found_state = stats + 6 * 7;
    m.order_fall = 1;
    m.rescale();
    assert_eq!(m.found_state, stats);
    assert_eq!(m.freq(stats), (1 + 4 + 1) / 2);
    assert_eq!(m.freq(stats + 6), 1);
    assert_eq!(m.summ_freq(root), 3 + 255 + 11 - 11 / 2);

    // At full order the halves are rounded down; frequencies of three keep all states.
    let mut m = encoder_model(6, 1 << 20, RestoreMethod::Restart);
    let stats = m.stats(root);
    for i in 0..256u32 {
        m.set_freq(stats + 6 * i, 3);
    }
    m.set_summ_freq(root, 3 * 256);
    m.found_state = stats + 6 * 10;
    m.order_fall = 0;
    m.rescale();
    assert_eq!(m.num_stats(root), 255);
    assert_eq!(m.found_state, stats);
    assert_eq!((m.sym(stats), m.freq(stats)), (10, (3 + 4) / 2));
    assert!((1..256u32).all(|i| m.freq(stats + 6 * i) == 1));
    assert_eq!(m.summ_freq(root), 3 + 255);
}

#[test]
fn rescale_at_full_order_drops_states_that_halve_to_zero() {
    let mut m = encoder_model(6, 1 << 20, RestoreMethod::Restart);
    let root = m.min_context;
    let stats = m.stats(root);
    for i in 0..10u32 {
        m.set_freq(stats + 6 * i, 3);
    }
    m.set_summ_freq(root, 10 * 3 + 246);
    m.found_state = stats + 6 * 5;
    m.order_fall = 0;
    m.rescale();
    assert_eq!(m.num_stats(root), 9);
    assert_eq!(m.stats(root), stats);
    assert_eq!(m.found_state, stats);
    assert_eq!((m.sym(stats), m.freq(stats)), (5, (3 + 4) / 2));
    let mut rest: Vec<(u32, u32)> = (1..10u32).map(|i| (m.sym(stats + 6 * i), m.freq(stats + 6 * i))).collect();
    rest.sort();
    assert_eq!(rest, vec![(0, 1), (1, 1), (2, 1), (3, 1), (4, 1), (6, 1), (7, 1), (8, 1), (9, 1)]);
    // The 246 dropped states count as escapes.
    assert_eq!(m.summ_freq(root), 3 + 9 + 246 - 246 / 2);
    assert_eq!(m.flags(root), 4);
}

#[test]
fn rescale_leaving_one_state_makes_the_context_binary() {
    let mut m = encoder_model(6, 1 << 20, RestoreMethod::Restart);
    let root = m.min_context;
    let stats = m.stats(root);
    m.found_state = stats + 6 * 7;
    m.order_fall = 0;
    m.rescale();
    assert_eq!(m.num_stats(root), 0);
    let one = m.single_state(root);
    assert_eq!(m.found_state, one);
    // Twice the halved frequency two over the 255 escapes, rounded up.
    assert_eq!((m.sym(one), m.freq(one), m.successor(one)), (7, 1, 0));
    assert_eq!(m.flags(root), 0);
    assert_eq!(m.free_list[m.units2index[127] as usize], stats);
}

#[test]
fn swapping_states_exchanges_all_their_fields() {
    let mut m = encoder_model(6, 1 << 20, RestoreMethod::Restart);
    let stats = m.stats(m.min_context);
    let (a, b) = (stats + 6 * 3, stats + 6 * 9);
    m.set_freq(a, 7);
    m.set_successor(a, 0x0A0B_0C0D);
    m.swap_states(a, b);
    assert_eq!((m.sym(a), m.freq(a), m.successor(a)), (9, 1, 0));
    assert_eq!((m.sym(b), m.freq(b), m.successor(b)), (3, 7, 0x0A0B_0C0D));
    assert_eq!(m.sym(stats + 6 * 4), 4);
}

#[test]
fn binary_context_takes_its_last_state() {
    let mut m = encoder_model(6, 1 << 20, RestoreMethod::Restart);
    let root = m.min_context;
    let stats = m.stats(root);
    let st = stats + 6 * 0x41;
    m.set_freq(st, 29);
    m.set_successor(st, 1234);
    m.set_flags(root, 16 + 4);
    m.make_binary(root, st);
    assert_eq!(m.flags(root), 16 + 8);
    let one = m.single_state(root);
    assert_eq!((m.sym(one), m.freq(one), m.successor(one)), (0x41, (29 + 11) / 8, 1234));
    assert_eq!(m.num_stats(root), 255);
    assert_eq!(m.suffix(root), 0);
}

/// A model whose memory was overwritten with garbage, as a corrupt stream can leave
/// it: every operation still ends and stays inside the model memory.
#[test]
fn model_survives_a_corrupt_memory() {
    for method in [RestoreMethod::Restart, RestoreMethod::CutOff] {
        let mut m = encoder_model(2, 0x800, method);
        for &b in sample_text().iter().take(300) {
            model_symbol(&mut m, b as u32);
        }
        let len = m.mem.len() as u32;
        let mut x: u32 = 99;
        let mut next = move || {
            x = x.wrapping_mul(1664525).wrapping_add(1013904223);
            x
        };
        for _ in 0..400 {
            let off = next() % len;
            m.mem.wr8(off, (next() >> 24) as u8);
        }
        for round in 0..200 {
            m.min_context = next() % (len + 16);
            m.max_context = if round % 3 == 0 { m.min_context } else { next() % (len + 16) };
            m.found_state = next() % (len + 16);
            m.order_fall = next() % 4;
            match round % 9 {
                0 => m.update1(),
                1 => m.update1_0(),
                2 => m.update2(),
                3 => {
                    let s = m.found_state;
                    m.update_bin(s);
                }
                4 => m.rescale(),
                5 => m.next_context(),
                6 => {
                    let c = m.min_context;
                    m.cut_off(c, 0);
                }
                7 => {
                    let c = next() % (len + 16);
                    m.restore_model(c);
                }
                _ => {
                    let mut esc = 0;
                    if m.num_stats(m.min_context) != 0 {
                        let src = m.make_esc_freq(next() % 256, &mut esc);
                        if let SeeSource::Table(_, _) = src {
                            assert!(esc >= 1);
                        }
                    }
                    let _ = m.get_bin_summ();
                }
            }
            assert_eq!(m.mem.len() as u32, len);
        }
    }
}

#[test]
fn splitting_a_block_files_its_tail_by_size() {
    let mut m = encoder_model(6, 1 << 20, RestoreMethod::Restart);
    let ptr = m.alloc_units(4).unwrap();
    // Six units cut down to one: the five beyond it are a block of four and a unit.
    m.split_block(ptr, 4, 0);
    assert_eq!(m.free_list[3], ptr + 12);
    assert_eq!(m.free_list[0], ptr + 12 + 4 * 12);
    assert_eq!(m.mem.rd32(ptr + 12 + 8), 4);
    assert_eq!(m.mem.rd32(ptr + 12 + 4 * 12 + 8), 1);
}

#[test]
fn splitting_a_block_keeps_a_tail_of_a_class_size_whole() {
    let mut m = encoder_model(6, 1 << 20, RestoreMethod::Restart);
    let ptr = m.alloc_units(5).unwrap();
    let head = m.free_list[4];
    // Eight units cut down to two: the six beyond them are one block of a class.
    m.split_block(ptr, 5, 1);
    assert_eq!(m.free_list[4], ptr + 2 * 12);
    assert_eq!(m.mem.rd32(ptr + 2 * 12 + 4), head);
    assert_eq!(m.free_list[0], 0);
}

#[test]
fn filling_lists_files_a_lone_glued_block() {
    let mut m = encoder_model(6, 1 << 20, RestoreMethod::Restart);
    let b = m.alloc_units(6).unwrap();
    m.mem.wr32(b, 0xFFFF_FFFF);
    m.mem.wr32(b + 4, 0);
    m.mem.wr32(b + 8, 7);
    m.fill_list(b);
    // Seven units: a block of six heads its list, the unit after it the smallest one.
    assert_eq!(m.free_list[4], b);
    assert_eq!(m.free_list[0], b + 6 * 12);
    assert_eq!(m.mem.rd32(b + 8), 6);
}

#[test]
fn filling_an_empty_list_changes_nothing() {
    let mut m = encoder_model(6, 1 << 20, RestoreMethod::Restart);
    let lists = m.free_list.clone();
    let stamps = m.stamps.clone();
    m.fill_list(0);
    assert_eq!(m.free_list, lists);
    assert_eq!(m.stamps, stamps);
}

#[test]
fn expanding_the_text_area_takes_the_free_block_at_the_units_start() {
    let mut m = encoder_model(6, 1 << 20, RestoreMethod::Restart);
    let us = m.units_start;
    let head = m.free_list[1];
    let stamps = m.stamps[1];
    let b = us - 2 * 12;
    m.units_start = b;
    m.insert_node(b, 1);
    m.expand_text_area();
    assert_eq!(m.units_start, us);
    assert_eq!(m.free_list[1], head);
    assert_eq!(m.stamps[1], stamps);
    assert_eq!(m.mem.rd32(b), 0);
}

#[test]
fn cut_off_at_the_largest_order_empties_a_successor() {
    let mut m = encoder_model(6, 1 << 20, RestoreMethod::CutOff);
    let root = m.min_context;
    let c = m.alloc_units(0).unwrap();
    m.set_num_stats(c, 0);
    let one = m.single_state(c);
    m.set_sym(one, 65);
    m.set_freq(one, 3);
    m.set_successor(one, root);
    assert_eq!(m.cut_off(c, 6), c);
    assert_eq!(m.successor(one), 0);
}

#[test]
fn create_successors_takes_a_state_that_already_leads_elsewhere() {
    let mut m = encoder_model(6, 1 << 20, RestoreMethod::Restart);
    let root = m.min_context;
    let c = m.alloc_units(0).unwrap();
    m.set_num_stats(c, 0);
    m.set_suffix(c, root);
    let st = m.stats(root) + 6 * 7;
    m.set_successor(st, 0x1234);
    let fs = m.found_state;
    assert_ne!(m.successor(fs), 0x1234);
    let mut s1 = Some(st);
    assert_eq!(m.create_successors(1, &mut s1, c), Some(0x1234));
    assert_eq!(s1, None);
}

#[test]
fn create_successors_in_a_binary_root_returns_it() {
    let mut m = encoder_model(6, 1 << 20, RestoreMethod::Restart);
    let c = m.alloc_units(0).unwrap();
    m.set_num_stats(c, 0);
    m.set_suffix(c, 0);
    let text = m.text;
    let mut s1 = None;
    assert_eq!(m.create_successors(1, &mut s1, c), Some(c));
    assert_eq!(m.text, text);
}

#[test]
fn reduce_order_in_the_root_points_the_found_state_at_the_text() {
    let mut m = encoder_model(6, 1 << 20, RestoreMethod::Restart);
    let root = m.min_context;
    let fs = m.stats(root) + 6 * 9;
    m.found_state = fs;
    let fall = m.order_fall;
    let text = m.text;
    assert_eq!(m.reduce_order(None, root), Some(root));
    assert_eq!(m.order_fall, fall + 1);
    assert_eq!(m.successor(fs), text);
    assert_eq!(m.text, text);
}

#[test]
fn cut_off_frees_a_context_whose_states_all_lead_nowhere() {
    let mut m = encoder_model(6, 1 << 20, RestoreMethod::CutOff);
    let ctx = m.alloc_units(0).unwrap();
    let stats = m.alloc_units(0).unwrap();
    m.set_num_stats(ctx, 1);
    m.set_stats(ctx, stats);
    for (i, sym) in [(0u32, 65u8), (1, 66)] {
        let s = stats + 6 * i;
        m.set_sym(s, sym);
        m.set_freq(s, 2);
        m.set_successor(s, 0);
    }
    assert_eq!(m.cut_off(ctx, 1), 0);
    assert_eq!(m.free_list[0], ctx);
    assert_eq!(m.mem.rd32(ctx + 4), stats);
}

#[test]
fn create_successors_makes_one_context_below_the_free_area_top() {
    let mut m = encoder_model(6, 1 << 20, RestoreMethod::Restart);
    let root = m.min_context;
    let fs = m.stats(root) + 6 * 65;
    assert_eq!(m.sym(fs), 65);
    m.found_state = fs;
    let up = m.text;
    m.mem.wr8(up, 66);
    m.set_successor(fs, up);
    let hi = m.hi_unit;
    let mut s1 = None;
    let b = hi - 12;
    assert_eq!(m.create_successors(0, &mut s1, root), Some(b));
    assert_eq!(m.hi_unit, b);
    assert_eq!(m.num_stats(b), 0);
    assert_eq!(m.sym(b + 2), 66);
    assert_eq!(m.successor(b + 2), up + 1);
    assert_eq!(m.suffix(b), root);
    assert_eq!(m.successor(fs), b);
}

#[test]
fn reduce_order_falls_back_to_a_state_that_has_a_context() {
    let mut m = encoder_model(6, 1 << 20, RestoreMethod::Restart);
    let root = m.min_context;
    let fs = m.stats(root) + 6 * 65;
    let st = m.stats(root) + 6 * 66;
    m.found_state = fs;
    m.set_successor(st, root);
    let fall = m.order_fall;
    let text = m.text;
    assert!(root > text);
    assert_eq!(m.reduce_order(Some(st), root), Some(root));
    assert_eq!(m.order_fall, fall + 1);
    assert_eq!(m.text, text);
    assert_eq!(m.successor(fs), text);
}

#[test]
fn reduce_order_on_the_first_fall_links_the_found_state_onward() {
    let mut m = encoder_model(6, 1 << 20, RestoreMethod::Restart);
    let root = m.min_context;
    let fs = m.stats(root) + 6 * 65;
    let st = m.stats(root) + 6 * 66;
    m.found_state = fs;
    m.set_successor(st, root);
    m.order_fall = 0;
    let mc = m.max_context;
    let text = m.text;
    assert_eq!(m.reduce_order(Some(st), mc), Some(root));
    assert_eq!(m.order_fall, 1);
    assert_eq!(m.text, text.wrapping_sub(1));
    assert_eq!(m.successor(fs), root);
}

#[test]
fn gluing_with_empty_lists_resets_the_counts() {
    let mut m = encoder_model(6, 1 << 20, RestoreMethod::Restart);
    m.stamps[3] = 7;
    m.glue_free_blocks();
    assert!(m.free_list.iter().all(|&x| x == 0));
    assert!(m.stamps.iter().all(|&x| x == 0));
    assert_eq!(m.glue_count, 0x2000);
}

#[test]
fn update2_starts_the_run_over() {
    let mut m = encoder_model(6, 1 << 20, RestoreMethod::Restart);
    let root = m.min_context;
    m.found_state = m.stats(root) + 6 * 97;
    m.run_length = 5;
    m.update2();
    assert_eq!(m.run_length, m.init_rl);
    assert_eq!(m.min_context, m.max_context);
}

#[test]
fn update_model_restarts_when_the_text_reaches_the_units() {
    let mut m = encoder_model(6, 1 << 20, RestoreMethod::Restart);
    let start_text = m.text;
    for &b in b"some text to grow the model" {
        model_symbol(&mut m, b as u32);
    }
    assert_ne!(m.text, start_text);
    m.text = m.units_start - 1;
    m.order_fall = 3;
    m.update_model();
    assert_eq!(m.text, m.align_offset);
    assert_eq!(m.order_fall, m.max_order);
    assert_eq!(m.num_stats(m.min_context), 255);
}

#[test]
fn update2_restarts_when_the_text_reaches_the_units() {
    let mut m = encoder_model(6, 1 << 20, RestoreMethod::Restart);
    for &b in b"a little text first" {
        model_symbol(&mut m, b as u32);
    }
    let root = root_of(&m);
    m.min_context = root;
    m.found_state = m.stats(root) + 6 * 30;
    m.text = m.units_start - 1;
    m.order_fall = 2;
    m.update2();
    assert_eq!(m.text, m.align_offset);
    assert_eq!(m.order_fall, m.max_order);
    assert_eq!(m.run_length, m.init_rl);
}

#[test]
fn reduce_order_steps_to_a_binary_suffix_that_has_a_context() {
    let mut m = encoder_model(6, 1 << 20, RestoreMethod::Restart);
    let root = m.min_context;
    let c = m.alloc_units(0).unwrap();
    let c2 = m.alloc_units(0).unwrap();
    m.set_suffix(c, c2);
    m.set_num_stats(c2, 0);
    let one = m.single_state(c2);
    m.set_sym(one, 65);
    m.set_freq(one, 5);
    m.set_successor(one, root);
    let fs = m.stats(root) + 6 * 65;
    m.found_state = fs;
    let fall = m.order_fall;
    let text = m.text;
    assert_eq!(m.reduce_order(None, c), Some(root));
    assert_eq!(m.freq(one), 6);
    assert_eq!(m.order_fall, fall + 1);
    assert_eq!(m.successor(fs), text);
    assert_eq!(m.text, text);
}

#[test]
fn reduce_order_raises_the_symbol_in_a_suffix_by_two() {
    let mut m = encoder_model(6, 1 << 20, RestoreMethod::Restart);
    let root = m.min_context;
    let c = m.alloc_units(0).unwrap();
    m.set_suffix(c, root);
    let stats = m.stats(root);
    m.set_successor(stats, root);
    let fs = m.alloc_units(0).unwrap();
    m.set_sym(fs, 0);
    m.set_freq(fs, 1);
    m.found_state = fs;
    let summ = m.summ_freq(root);
    let fall = m.order_fall;
    assert_eq!(m.reduce_order(None, c), Some(root));
    assert_eq!(m.freq(stats), 3);
    assert_eq!(m.summ_freq(root), summ + 2);
    assert_eq!(m.order_fall, fall + 1);
}

#[test]
fn cut_off_keeps_a_binary_chain_that_leads_to_a_context() {
    let mut m = encoder_model(6, 1 << 20, RestoreMethod::CutOff);
    let root = m.min_context;
    let c = m.alloc_units(0).unwrap();
    let c2 = m.alloc_units(0).unwrap();
    for (ctx, next) in [(c, c2), (c2, root)] {
        m.set_num_stats(ctx, 0);
        let one = m.single_state(ctx);
        m.set_sym(one, 65);
        m.set_freq(one, 3);
        m.set_successor(one, next);
    }
    assert_eq!(m.cut_off(c, 1), c);
    assert_eq!(m.successor(m.single_state(c)), c2);
}

#[test]
fn create_successors_copies_the_frequency_of_a_binary_context() {
    let mut m = encoder_model(6, 1 << 20, RestoreMethod::Restart);
    let root = m.min_context;
    let c = m.alloc_units(0).unwrap();
    m.set_num_stats(c, 0);
    m.set_suffix(c, 0);
    let one = m.single_state(c);
    m.set_sym(one, 66);
    m.set_freq(one, 9);
    let fs = m.stats(root) + 6 * 65;
    m.found_state = fs;
    let up = m.text;
    m.mem.wr8(up, 66);
    m.set_successor(fs, up);
    let b = m.hi_unit - 12;
    let mut s1 = None;
    assert_eq!(m.create_successors(0, &mut s1, c), Some(b));
    assert_eq!(m.freq(b + 2), 9);
    assert_eq!(m.sym(b + 2), 66);
    assert_eq!(m.suffix(b), c);
}

#[test]
fn update_model_from_a_fresh_root_writes_the_symbol_to_the_text() {
    let mut m = encoder_model(6, 1 << 20, RestoreMethod::Restart);
    let root = m.min_context;
    let text = m.text;
    let stats = m.stats(root);
    m.found_state = stats;
    assert_eq!(m.sym(stats), 0);
    assert_eq!(m.successor(stats), 0);
    assert_eq!(m.order_fall, 6);
    let lo = m.lo_unit;
    let hi = m.hi_unit;
    m.update_model();
    assert_eq!(m.mem.rd8(text), 0);
    assert_eq!(m.text, text + 1);
    assert_eq!(m.successor(stats), text + 1);
    assert_eq!(m.order_fall, 6);
    assert_eq!(m.min_context, root);
    assert_eq!(m.max_context, root);
    assert_eq!(m.lo_unit, lo);
    assert_eq!(m.hi_unit, hi);
}

#[test]
fn update2_from_a_fresh_root_raises_the_symbol_and_writes_it_to_the_text() {
    let mut m = encoder_model(6, 1 << 20, RestoreMethod::Restart);
    let root = m.min_context;
    let text = m.text;
    let s = m.stats(root).wrapping_add(6 * 65);
    m.found_state = s;
    m.run_length = 5;
    let f = m.freq(s);
    let summ = m.summ_freq(root);
    m.update2();
    assert_eq!(m.freq(s), f + 4);
    assert_eq!(m.summ_freq(root), summ + 4);
    assert_eq!(m.mem.rd8(text), 65);
    assert_eq!(m.text, text + 1);
    assert_eq!(m.successor(s), text + 1);
    assert_eq!(m.run_length, m.init_rl);
    assert_eq!(m.min_context, root);
    assert_eq!(m.max_context, root);
}

#[test]
fn create_successors_estimates_the_frequency_from_a_context_with_many_states() {
    let mut m = encoder_model(6, 1 << 20, RestoreMethod::Restart);
    let root = m.min_context;
    let fs = m.stats(root) + 6 * 65;
    m.found_state = fs;
    let next = m.stats(root) + 6 * 66;
    m.set_freq(next, 20);
    let summ = m.summ_freq(root);
    m.set_summ_freq(root, (summ + 19) as u16);
    let up = m.text;
    m.mem.wr8(up, 66);
    m.set_successor(fs, up);
    let b = m.hi_unit - 12;
    let mut s1 = None;
    assert_eq!(m.create_successors(0, &mut s1, root), Some(b));
    // cf = 19 and s0 = 276 - 255 - 19 = 2, so the estimate is 1 + (19 + 4 - 3) / 2.
    assert_eq!(m.freq(b + 2), 11);
    assert_eq!(m.sym(b + 2), 66);
}

#[test]
fn update1_0_from_a_fresh_root_counts_the_symbol_and_writes_it_to_the_text() {
    let mut m = encoder_model(6, 1 << 20, RestoreMethod::Restart);
    let root = m.min_context;
    let text = m.text;
    let s = m.stats(root);
    m.found_state = s;
    let run = m.run_length;
    m.update1_0();
    assert_eq!(m.freq(s), 5);
    assert_eq!(m.summ_freq(root), 261);
    assert_eq!(m.prev_success, 0);
    assert_eq!(m.run_length, run);
    assert_eq!(m.mem.rd8(text), 0);
    assert_eq!(m.text, text + 1);
    assert_eq!(m.successor(s), text + 1);
    assert_eq!(m.min_context, root);
}

#[test]
fn update1_in_a_fresh_root_moves_the_symbol_ahead_and_writes_it_to_the_text() {
    let mut m = encoder_model(6, 1 << 20, RestoreMethod::Restart);
    let root = m.min_context;
    let text = m.text;
    let stats = m.stats(root);
    let s = stats + 6 * 65;
    m.found_state = s;
    m.update1();
    let fs = stats + 6 * 64;
    assert_eq!(m.found_state, fs);
    assert_eq!(m.sym(fs), 65);
    assert_eq!(m.freq(fs), 5);
    assert_eq!(m.successor(fs), text + 1);
    assert_eq!(m.sym(s), 64);
    assert_eq!(m.freq(s), 1);
    assert_eq!(m.successor(s), 0);
    assert_eq!(m.summ_freq(root), 261);
    assert_eq!(m.mem.rd8(text), 65);
    assert_eq!(m.text, text + 1);
    assert_eq!(m.min_context, root);
}

#[test]
fn cut_off_restore_with_little_memory_used_restarts() {
    let mut m = encoder_model(6, 1 << 20, RestoreMethod::CutOff);
    for &b in b"hello hello" {
        model_symbol(&mut m, b as u32);
    }
    m.min_context = m.max_context;
    let mc = m.max_context;
    m.text = m.align_offset;
    assert!(m.get_used_memory() < m.size / 2);
    m.restore_model(mc);
    assert_eq!(m.num_stats(m.min_context), 255);
    assert_eq!(m.text, m.align_offset);
}

#[test]
fn cut_off_restore_with_much_memory_used_prunes_in_place() {
    let mut m = encoder_model(16, 0x4000, RestoreMethod::CutOff);
    let text = sample_text();
    let mut fed = 0;
    loop {
        let saved = m.text;
        model_symbol(&mut m, text[fed % text.len()] as u32);
        fed += 1;
        let used = {
            let t = m.text;
            m.text = m.align_offset;
            let u = m.get_used_memory();
            m.text = t;
            u
        };
        if used >= m.size / 2 && m.text != m.align_offset && saved != m.align_offset {
            break;
        }
        assert!(fed < 100_000, "the model must fill half of its memory");
    }
    m.min_context = m.max_context;
    let mc = m.max_context;
    let (lo, hi) = (m.lo_unit, m.hi_unit);
    m.restore_model(mc);
    assert_eq!(m.lo_unit, lo);
    assert_eq!(m.hi_unit, hi);
    assert_eq!(m.text, m.align_offset);
    assert_eq!(m.order_fall, m.max_order);
    assert_eq!(m.min_context, m.max_context);
}

#[test]
fn cut_off_at_order_zero_keeps_the_states_and_empties_their_successors() {
    let mut m = encoder_model(6, 1 << 20, RestoreMethod::CutOff);
    let root = m.min_context;
    let stats = m.stats(root);
    let text = m.text;
    m.set_successor(stats + 6 * 5, text + 3);
    m.set_freq(stats + 6 * 7, 9);
    assert_eq!(m.cut_off(root, 0), root);
    assert_eq!(m.num_stats(root), 255);
    for j in 0..256u32 {
        let s = stats + 6 * j;
        assert_eq!(m.sym(s), j);
        assert_eq!(m.freq(s), if j == 7 { 9 } else { 1 });
        assert_eq!(m.successor(s), 0);
    }
}

#[test]
fn update_model_adds_the_symbol_to_the_context_it_escaped_from() {
    let mut m = encoder_model(6, 1 << 20, RestoreMethod::Restart);
    let root = m.min_context;
    let text = m.text;
    // A context of three states one order above the root, in two units below the
    // free area's top, with its states in the two units below it.
    let c = m.hi_unit - 12;
    let stats = m.hi_unit - 36;
    m.set_num_stats(c, 2);
    m.set_flags(c, 0);
    m.set_summ_freq(c, 10);
    m.set_stats(c, stats);
    m.set_suffix(c, root);
    for j in 0..3u32 {
        m.set_sym(stats + 6 * j, 10 + j as u8);
        m.set_freq(stats + 6 * j, 3);
        m.set_successor(stats + 6 * j, 0);
    }
    let fs = m.stats(root) + 6 * 65;
    m.set_freq(fs, 40);
    let summ = m.summ_freq(root);
    m.set_summ_freq(root, (summ + 39) as u16);
    m.set_successor(fs, c);
    m.found_state = fs;
    m.max_context = c;
    m.order_fall = 2;
    m.update_model();
    assert_eq!(m.mem.rd8(text), 65);
    assert_eq!(m.text, text + 1);
    assert_eq!(m.order_fall, 1);
    assert_eq!(m.num_stats(c), 3);
    let st = stats + 18;
    assert_eq!(m.sym(st), 65);
    assert_eq!(m.successor(st), text + 1);
    // sum = 10 + 1, s0 = 296 - 255 - 40 = 1, cf = 17 * 2 * 40 = 1360 > 15 * 12.
    assert_eq!(m.freq(st), 7);
    assert_eq!(m.summ_freq(c), 18);
    assert_eq!(m.flags(c), 8);
    assert_eq!(m.min_context, c);
    assert_eq!(m.max_context, c);
}

fn snapshot(m: &Ppmd8<RangeEncoder7a>) -> (Vec<u32>, Vec<u8>, Vec<u32>, Vec<u32>, Vec<u16>) {
    let fields = vec![
        m.min_context, m.max_context, m.found_state, m.order_fall, m.init_esc, m.prev_success,
        m.run_length as u32, m.init_rl as u32, m.glue_count, m.lo_unit, m.hi_unit, m.text,
        m.units_start,
    ];
    let bytes: Vec<u8> = (0..m.mem.len() as u32).map(|i| m.mem.rd8(i)).collect();
    let see: Vec<u32> = m.see.iter().map(|s| s.summ as u32 | (s.shift as u32) << 16 | (s.count as u32) << 24).collect();
    let lists: Vec<u32> = m.free_list.iter().chain(m.stamps.iter()).cloned().collect();
    (fields, bytes, see, lists, m.bin_summ.clone())
}

#[test]
fn restarting_twice_is_restarting_once() {
    let mut m = encoder_model(6, 1 << 16, RestoreMethod::Restart);
    for &b in b"abracadabra, abracadabra" {
        model_symbol(&mut m, b as u32);
    }
    m.restart_model();
    let once = snapshot(&m);
    m.restart_model();
    assert!(snapshot(&m) == once);
}
