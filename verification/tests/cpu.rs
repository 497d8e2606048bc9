use decrypt::cpu::{bit_reverse, calc_f4_f5, forward_step, Cpu, Memory, Register};

#[test]
fn test_bit_reverse() {
    assert_eq!(bit_reverse(0x01), 0x80);
    assert_eq!(bit_reverse(0x02), 0x40);
    assert_eq!(bit_reverse(0x04), 0x20);
    assert_eq!(bit_reverse(0x08), 0x10);
    assert_eq!(bit_reverse(0x10), 0x08);
    assert_eq!(bit_reverse(0x20), 0x04);
    assert_eq!(bit_reverse(0x40), 0x02);
    assert_eq!(bit_reverse(0x80), 0x01);
}

fn calc_f4_f5_naive(cpu: &mut Cpu, memory: &mut Memory) {
    for i in (0..8).rev() {
        cpu.set_carry(cpu.reg.a >> i & 1);

        memory.f4 = cpu.ror(memory.f4);
        memory.f5 = cpu.ror(memory.f5);
        if cpu.reg.c == 1 {
            memory.f4 ^= 0x84;
            memory.f5 ^= 0x08;
        }
    }
}

#[test]
fn test_calc_f4_f5() {
    for i in 0..0x100 {
        for j in 0..0x100 {
            for k in 0..0x100 {
                let cpu = Cpu {
                    reg: Register { a: i as u8, c: 0 },
                };
                let memory = Memory {
                    f4: j as u8,
                    f5: k as u8,
                    f7: 0x00,
                    f8: 0x00,
                    f9: 0x00,
                    fa: 0x00,
                    fb: 0x00,
                };

                let mut cpu1 = cpu.clone();
                let mut memory1 = memory.clone();
                let mut cpu2 = cpu.clone();
                let mut memory2 = memory.clone();
                calc_f4_f5(&mut cpu1, &mut memory1);
                calc_f4_f5_naive(&mut cpu2, &mut memory2);
                assert_eq!(cpu1, cpu2);
                assert_eq!(memory1, memory2);
            }
        }
    }
}

#[test]
fn bit_reverse_involution() {
    for v in 0..=255u8 {
        assert_eq!(bit_reverse(bit_reverse(v)), v);
    }
}

#[test]
fn forward_step_known_vector() {
    // K, I, D drive the initial state to the first sample target.
    let mut m = Memory::new();
    forward_step(&mut m, 0x19);
    forward_step(&mut m, 0x09);
    forward_step(&mut m, 0x18);
    assert_eq!(m.f4, 0x00);
    assert_eq!(m.f5, 0x51);
    assert_eq!(m.f7, 0x3A);
    assert_eq!(m.f8, 0xE9);
    assert_eq!(m.f9, 0x08);
    assert_eq!(m.fa, 0x23);
    assert_eq!(m.fb, 0x07);
}
