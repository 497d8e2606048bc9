use decrypt::backward::{calc_prev_f4, calc_prev_f5, calc_prev_f7, calc_prev_memories, Backward};
use decrypt::cpu::{bit_reverse, forward_char, forward_step, Memory};

#[test]
fn test() {
    let mut reverse = [0; 0x100];
    for k in 0..=0xFF {
        let mut cnt = [0; 0x100];
        for j in 0..=0xFF {
            let mut memory = Memory {
                f5: j,
                ..Memory::default()
            };
            forward_step(&mut memory, k);
            cnt[memory.f4 as usize] += 1;
            if k == 0 {
                reverse[(k ^ bit_reverse(memory.f4)) as usize] = j;
            } else {
                assert_eq!(reverse[(k ^ bit_reverse(memory.f4)) as usize], j);
            }
        }
        for i in 0..=0xFF {
            assert_eq!(cnt[i], 1);
        }
    }
}

#[test]
fn test_calc_prev_f4_f5() {
    for f4 in 0..=0xFF {
        for f5 in 0..=0xFF {
            for c in 0..=0xFF {
                let mut memory = Memory {
                    f4,
                    f5,
                    ..Memory::default()
                };

                forward_step(&mut memory, c);

                let cur_f4 = memory.f4;
                let cur_f5 = memory.f5;

                let prev_f5 = calc_prev_f5(cur_f4, c);
                let prev_f4 = calc_prev_f4(cur_f5, prev_f5);

                assert_eq!(prev_f5, f5);
                assert_eq!(prev_f4, f4);
            }
        }
    }
}

#[test]
fn test_calc_prev_f7() {
    for f5 in 0..=0xFF {
        for f7 in 0..=0xFF {
            for c in 0..=0xFF {
                let mut memory = Memory {
                    f5,
                    f7,
                    ..Memory::default()
                };

                forward_step(&mut memory, c);

                let cur_f4 = memory.f4;
                let cur_f7 = memory.f7;

                let prev_f7 = calc_prev_f7(cur_f7, cur_f4, c).0;

                assert_eq!(prev_f7, f7);
            }
        }
    }
}

#[test]
fn prev_memories_round_trip() {
    // Every state that calc_prev_memories returns steps forward to the
    // queried state, and the true predecessor is always among them.
    for seed in 0..256u32 {
        let m = Memory {
            f4: (seed * 7) as u8,
            f5: (seed * 13 + 1) as u8,
            f7: (seed * 29 + 5) as u8,
            f8: (seed * 31 + 11) as u8,
            f9: (seed * 37 + 2) as u8,
            fa: (seed * 41 + 3) as u8,
            fb: (seed * 43 + 9) as u8,
        };
        for c in ['A', 'K', '9', '.', 'c'] {
            let mut next = m.clone();
            forward_char(&mut next, c);
            let prevs = calc_prev_memories(&next, c);
            assert!(prevs.iter().any(|p| *p == m));
            for p in prevs {
                let mut again = p.clone();
                forward_char(&mut again, c);
                assert_eq!(again, next);
            }
        }
    }
}

#[test]
fn backward_nodes_sorted_and_sound() {
    // The target reached by K, I, D from the initial state.
    let target = Memory {
        f4: 0x00,
        f5: 0x51,
        f7: 0x3A,
        f8: 0xE9,
        f9: 0x08,
        fa: 0x23,
        fb: 0x07,
    };
    let backward = Backward::new(&target, 2);
    assert_eq!(backward.len(), 2);
    assert!(backward.nodes.len() > 0);
    let mut prev_key = 0u64;
    for i in 0..backward.nodes.len() {
        let node = &backward.nodes[i];
        let key = node.key();
        assert!(prev_key <= key);
        prev_key = key;
        assert_eq!(node.password.len(), 2);
        let mut m = node.memory.clone();
        for &code in node.password.iter() {
            forward_step(&mut m, code);
        }
        assert_eq!(m, target);
    }
}

#[test]
fn lookup_returns_one_entry_per_matching_node() {
    let target = Memory {
        f4: 0x00,
        f5: 0x51,
        f7: 0x3A,
        f8: 0xE9,
        f9: 0x08,
        fa: 0x23,
        fb: 0x07,
    };
    let backward = Backward::new(&target, 2);
    let probe = backward.nodes[0].memory.clone();
    let expected = (0..backward.nodes.len())
        .filter(|&i| backward.nodes[i].memory == probe)
        .count();
    let got = backward.for_each_password(&probe);
    assert_eq!(got.len(), expected);
    for s in &got {
        assert!((0..backward.nodes.len())
            .any(|i| backward.nodes[i].memory == probe && backward.nodes[i].password == *s));
    }
}
