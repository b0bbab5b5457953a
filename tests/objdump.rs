use isla_footprint::objdump::{bits_from_hex, instruction_from_objdump, label_from_objdump, opcode_from_objdump, unique_match};

const LISTING: &str = "\nDisassembly of section litmus_0:\n\n0000000000001000 <litmus_0>:\n    1000:\td2800021 \tmov\tx1, #0x1\n    1004:\tf9400020 \tldr\tx0, [x1]\n    1008:\td2800021 \tmov\tx1, #0x1\n";

#[test]
fn instruction_text_of_opcode() {
    assert_eq!(instruction_from_objdump("f9400020", LISTING), Some("ldr x0, [x1]".to_string()));
    assert_eq!(instruction_from_objdump("d2800021", LISTING), Some("mov x1, #0x1".to_string()));
    assert_eq!(instruction_from_objdump("deadbeef", LISTING), None);
}

#[test]
fn instruction_text_must_agree() {
    let listing = "  10:\t0000aaaa \tnop\n  14:\t0000aaaa \tyield\n";
    assert_eq!(instruction_from_objdump("aaaa", listing), None);
    let spacing = "  10:\t0000aaaa \tmov\tx1, x2\n  14:\t0000aaaa \tmov\tx1,  x2\n";
    assert_eq!(instruction_from_objdump("aaaa", spacing), None);
}

#[test]
fn unique_match_cases() {
    let same = vec!["a".to_string(), "a".to_string()];
    assert_eq!(unique_match(&same), Some(&"a".to_string()));
    let differ = vec!["a".to_string(), "b".to_string()];
    assert_eq!(unique_match(&differ), None);
    assert_eq!(unique_match(&Vec::new()), None);
}

#[test]
fn opcode_at_address() {
    let op = opcode_from_objdump(0x1004, LISTING).expect("listed");
    assert_eq!(op.bits, 0xf9400020);
    assert_eq!(op.length, 32);
    assert!(opcode_from_objdump(0x2000, LISTING).is_none());
}

#[test]
fn label_address() {
    assert_eq!(label_from_objdump("litmus_0", LISTING), Some(0x1000));
    assert_eq!(label_from_objdump("litmus_1", LISTING), None);
}

#[test]
fn hex_bitvectors() {
    let b = bits_from_hex("00ff").expect("hex");
    assert_eq!(b.bits, 0xff);
    assert_eq!(b.length, 16);
    assert!(bits_from_hex("0123456789abcdef0").is_none());
    assert!(bits_from_hex("xyz").is_none());
}
