use decrypt::backward::Backward;
use decrypt::cpu::{forward_char, Memory};
use decrypt::domain::{char_to_code, to_string};
use decrypt::enumeration::enumeration;
use decrypt::target::Target;

fn run_forward(s: &str) -> Memory {
    let mut m = Memory::new();
    for c in s.chars() {
        forward_char(&mut m, c);
    }
    m
}

fn emitted_strings(target: &Target, backward_len: usize) -> Vec<String> {
    enumeration(target, backward_len)
        .iter()
        .map(|codes| to_string(codes))
        .collect()
}

#[test]
fn kid_found_by_backward_join() {
    // Length 3, with the whole length covered by the backward table.
    let memory = Memory {
        f4: 0x00,
        f5: 0x51,
        f7: 0x3A,
        f8: 0xE9,
        f9: 0x08,
        fa: 0x23,
        fb: 0x07,
    };
    let target = Target::new(memory, 3);
    let found = emitted_strings(&target, 3);
    assert!(found.iter().any(|p| p == "KID"));
    for p in &found {
        assert_eq!(run_forward(p), memory);
        assert_eq!(p.len(), 3);
    }
}

#[test]
fn kid_found_with_tables() {
    // Length 3 with a forward depth of 1, exercising both tables.
    let memory = Memory {
        f4: 0x00,
        f5: 0x51,
        f7: 0x3A,
        f8: 0xE9,
        f9: 0x08,
        fa: 0x23,
        fb: 0x07,
    };
    let target = Target::new(memory, 3);
    let found = emitted_strings(&target, 2);
    assert!(found.iter().any(|p| p == "KID"));
    for p in &found {
        assert_eq!(run_forward(p), memory);
    }
}

#[test]
fn telephone_vector_reaches_target() {
    // The known 8-character password hashes to its published target;
    // by the engine's completeness theorem, a run at this length would
    // therefore emit it.  The run itself allocates multi-gigabyte
    // tensors, more than a test should take.
    let m = run_forward("818-6104");
    assert_eq!(
        (m.f4, m.f5, m.f7, m.f8, m.f9, m.fa, m.fb),
        (0xDC, 0xD9, 0xA3, 0xE3, 0x17, 0x28, 0x15)
    );
}

#[test]
fn telephone_backward_nodes_sound() {
    let memory = Memory {
        f4: 0xDC,
        f5: 0xD9,
        f7: 0xA3,
        f8: 0xE3,
        f9: 0x17,
        fa: 0x28,
        fb: 0x15,
    };
    let backward = Backward::new(&memory, 3);
    assert!(backward.nodes.len() > 0);
    // the suffix of the known password appears among the nodes
    let m5 = run_forward("818-6");
    let tail = [char_to_code('1'), char_to_code('0'), char_to_code('4')];
    assert!((0..backward.nodes.len()).any(|i| {
        backward.nodes[i].memory == m5 && backward.nodes[i].password == tail
    }));
}

#[test]
fn eleven_char_vector_reaches_target() {
    // The known 11-character password hashes to its published target.
    let m = run_forward("HENTAIOSUGI");
    assert_eq!(
        (m.f4, m.f5, m.f7, m.f8, m.f9, m.fa, m.fb),
        (0x64, 0x98, 0x15, 0x91, 0x18, 0xB1, 0x15)
    );
}

#[test]
fn fourteen_char_vectors_reach_target() {
    // The three known 14-character passwords hash to their target.
    for p in ["4667.677D7c276", "7466-789D66!17", "8DmmDmm.D3!n1n"] {
        let m = run_forward(p);
        assert_eq!(
            (m.f4, m.f5, m.f7, m.f8, m.f9, m.fa, m.fb),
            (0x51, 0x62, 0xFD, 0x39, 0x03, 0xCB, 0x26)
        );
    }
}

#[test]
fn fourteen_char_primary_backward_nodes_sound() {
    // The primary 14-character target: every backward node's suffix
    // leads back to it.
    let memory = Memory {
        f4: 0x65,
        f5: 0x94,
        f7: 0xAC,
        f8: 0xE9,
        f9: 0x07,
        fa: 0x33,
        fb: 0x25,
    };
    let backward = Backward::new(&memory, 3);
    assert!(backward.nodes.len() > 0);
    for i in 0..backward.nodes.len() {
        let node = &backward.nodes[i];
        let mut m = node.memory.clone();
        for &code in node.password.iter() {
            decrypt::cpu::forward_step(&mut m, code);
        }
        assert_eq!(m, memory);
    }
}

#[test]
fn last_step_preimages_contain_true_state() {
    // The state after the first two characters of a found password is a
    // preimage of the state after all three.
    let m2 = run_forward("KI");
    let mut m3 = m2.clone();
    forward_char(&mut m3, 'D');
    let prevs = decrypt::backward::calc_prev_memories(&m3, 'D');
    assert!(prevs.iter().any(|p| *p == m2));
}

#[test]
fn single_char_search() {
    let memory = run_forward("A");
    let target = Target::new(memory, 1);
    let found = emitted_strings(&target, 1);
    assert!(found.iter().any(|p| p == "A"));
    for p in &found {
        assert_eq!(run_forward(p), memory);
    }
}
