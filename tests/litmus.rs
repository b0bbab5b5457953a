use isla_footprint::litmus::{
    UnassembledSection, assembler_input, generate_linker_script, parse_address, validate_code, validate_section_name,
};

#[test]
fn section_names() {
    assert!(validate_section_name("vector_table"));
    assert!(validate_section_name("h1"));
    assert!(validate_section_name(""));
    assert!(!validate_section_name("1abc"));
    assert!(!validate_section_name("_abc"));
    assert!(!validate_section_name("a-b"));
    assert!(!validate_section_name("litmus_0"));
    assert!(validate_section_name("litmus"));
}

#[test]
fn addresses() {
    assert_eq!(parse_address("0x1000"), Ok(0x1000));
    assert_eq!(parse_address("#xFFff"), Ok(0xffff));
    assert_eq!(parse_address("0x+10"), Ok(0x10));
    assert_eq!(parse_address("0xffffffffffffffff"), Ok(u64::MAX));
    assert_eq!(
        parse_address("0"),
        Err("Address 0 is too short, it must have the form 0xHEX or #xHEX".to_string())
    );
    assert_eq!(parse_address("1x10"), Err("Address 1x10 must start with either `0x' or `#x'".to_string()));
    assert_eq!(parse_address("0x"), Err("Cannot parse 0x as hexadecimal".to_string()));
    assert!(parse_address("0x10000000000000000").is_err());
    assert!(parse_address("0xg").is_err());
}

#[test]
fn code_validation() {
    assert_eq!(validate_code("mov x1, #1\n\tldr x0, [x1]\n"), Ok(()));
    assert_eq!(validate_code(".word 0"), Err("Invalid assembly in litmus".to_string()));
    let long = "a".repeat(1001);
    assert_eq!(validate_code(&long), Err("Assembly in litmus thread too long".to_string()));
    assert_eq!(validate_code("nop\u{7}"), Err("Assembly block can contain only ascii text".to_string()));
    assert_eq!(validate_code("nopé"), Err("Assembly block can contain only ascii text".to_string()));
}

#[test]
fn linker_script_orders_threads_and_sections() {
    let threads = vec!["0".to_string(), "1".to_string()];
    let sections = vec![UnassembledSection { name: "handler", address: 0x1800, code: "" }];
    let script = generate_linker_script(&threads, &sections, 0x1000, 0x1000);
    assert_eq!(
        script,
        "start = 0;\nSECTIONS\n{\n  . = 0x1000;\n  litmus_0 : { *(litmus_0) }\n  . = 0x1800;\n  handler : { *(handler) }\n  . = 0x2000;\n  litmus_1 : { *(litmus_1) }\n}\n"
    );
    let empty = generate_linker_script(&Vec::new(), &Vec::new(), 0, 0);
    assert_eq!(empty, "start = 0;\nSECTIONS\n{\n}\n");
}

#[test]
fn assembler_input_sections() {
    let threads = vec![("0".to_string(), "mov x1, #1\n"), ("1".to_string(), "ldr x0, [x1]\n")];
    let sections = vec![UnassembledSection { name: "handler", address: 0x1800, code: "eret\n" }];
    assert_eq!(
        assembler_input(&threads, &sections),
        Ok("\t.section litmus_0\nmov x1, #1\n\t.section litmus_1\nldr x0, [x1]\n\t.section handler\neret\n".to_string())
    );
}

#[test]
fn assembler_input_rejects_bad_code_and_names() {
    let threads = vec![("0".to_string(), ".word 1\n")];
    assert_eq!(assembler_input(&threads, &Vec::new()), Err("Invalid assembly in litmus".to_string()));
    let ok = vec![("0".to_string(), "nop\n")];
    let bad_name = vec![UnassembledSection { name: "litmus_x", address: 0, code: "nop\n" }];
    assert_eq!(assembler_input(&ok, &bad_name), Err("Section name litmus_x is invalid".to_string()));
}
