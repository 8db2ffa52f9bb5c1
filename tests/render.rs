use svd2rust::emit::GeneratedItem;
use svd2rust::interrupts::{interrupt_table_script, linker_script, vector_table, Vector};
use svd2rust::layout::BlockRef;
use svd2rust::model::{Access, Device, EnumValue, Field, Interrupt, Peripheral, Register, RegisterBlock, Usage};
use svd2rust::normalize::{normalize, ModelError};
use svd2rust::render::{render, render_items, RenderError};
use svd2rust::target::Target;
use svd2rust::text::{push_dec, push_hex};

fn field(name: &str, off: u32, width: u32, access: Option<Access>) -> Field {
    Field { name: name.to_string(), bit_offset: off, bit_width: width, access, values: vec![] }
}

fn register(name: &str, offset: u64, access: Access, fields: Vec<Field>) -> Register {
    Register { name: name.to_string(), offset, width: 32, access, reset_value: 0, fields }
}

fn block(name: &str, offset: u64, size: u64, registers: Vec<Register>) -> RegisterBlock {
    RegisterBlock { name: name.to_string(), offset, size, registers }
}

fn peripheral_blocks(name: &str, base: u64, derived: Option<&str>, blocks: Vec<RegisterBlock>) -> Peripheral {
    Peripheral {
        name: name.to_string(),
        base_address: base,
        derived_from: derived.map(|s| s.to_string()),
        blocks,
    }
}

/// A peripheral with one block, at offset 0, that ends with its last register.
fn peripheral(name: &str, base: u64, derived: Option<&str>, registers: Vec<Register>) -> Peripheral {
    let size = registers.iter().map(|r| r.offset + 4).max().unwrap_or(0);
    let blocks = if registers.is_empty() { vec![] } else { vec![block("REGS", 0, size, registers)] };
    peripheral_blocks(name, base, derived, blocks)
}

fn irq(name: &str, index: u32) -> Interrupt {
    Interrupt { name: name.to_string(), index, description: None }
}

fn device(peripherals: Vec<Peripheral>, interrupts: Vec<Interrupt>) -> Device {
    Device { name: "DEV".to_string(), description: String::new(), peripherals, interrupts }
}

fn gpioa_device() -> Device {
    let odr = register("ODR", 0x0C, Access::ReadWrite, vec![field("PIN0", 0, 1, Some(Access::ReadWrite))]);
    device(vec![peripheral("GPIOA", 0x4000_0000, None, vec![odr])], vec![])
}

#[test]
fn parses_each_known_target() {
    assert_eq!(Target::parse("cortex-m").unwrap(), Target::CortexM);
    assert_eq!(Target::parse("msp430").unwrap(), Target::Msp430);
    assert_eq!(Target::parse("riscv").unwrap(), Target::RISCV);
    assert_eq!(Target::parse("none").unwrap(), Target::Generic);
}

#[test]
fn unknown_target_is_refused() {
    let e = Target::parse("avr").unwrap_err();
    assert_eq!(e.selector, "avr");
    assert!(Target::parse("Cortex-M").is_err());
    assert!(Target::parse("").is_err());
}

#[test]
fn vector_table_fills_gaps_with_reserved_slots() {
    let t = vector_table(&vec![irq("UART0", 2), irq("TIMER1", 5)]).unwrap();
    assert_eq!(t.len(), 6);
    for k in [0usize, 1, 3, 4] {
        assert!(matches!(t[k], Vector::Reserved));
    }
    assert!(matches!(&t[2], Vector::Handler(n) if n == "UART0"));
    assert!(matches!(&t[5], Vector::Handler(n) if n == "TIMER1"));
}

#[test]
fn empty_interrupt_list_gives_empty_table() {
    assert_eq!(vector_table(&vec![]).unwrap().len(), 0);
    let t = vector_table(&vec![irq("ONLY", 0)]).unwrap();
    assert_eq!(t.len(), 1);
}

#[test]
fn linker_script_binds_handlers_to_default() {
    let s = interrupt_table_script(&vec![irq("UART0", 2), irq("TIMER1", 5)]).unwrap();
    let expected = [
        "PROVIDE(UART0 = DefaultHandler);\n",
        "PROVIDE(TIMER1 = DefaultHandler);\n",
        "SECTIONS\n{\n  .vector_table.interrupts :\n  {\n",
        "    LONG(0); /* reserved */\n",
        "    LONG(0); /* reserved */\n",
        "    LONG(UART0);\n",
        "    LONG(0); /* reserved */\n",
        "    LONG(0); /* reserved */\n",
        "    LONG(TIMER1);\n",
        "  } > FLASH\n}\n",
    ]
    .concat();
    assert_eq!(s, expected);
    assert_eq!(linker_script(&vec![]), "SECTIONS\n{\n  .vector_table.interrupts :\n  {\n  } > FLASH\n}\n");
}

#[test]
fn duplicate_interrupt_index_is_a_table_error() {
    let e = vector_table(&vec![irq("A", 3), irq("B", 1), irq("C", 3)]).unwrap_err();
    assert_eq!(e.index, 3);
    assert_eq!(e.first, "A");
    assert_eq!(e.second, "C");
    let d = device(vec![], vec![irq("A", 3), irq("C", 3)]);
    assert!(matches!(normalize(&d), Err(ModelError::DuplicateInterrupt { index: 3, .. })));
}

#[test]
fn gpioa_register_and_field_accessors() {
    let d = gpioa_device();
    let norm = normalize(&d).unwrap();
    let items = render_items(&d.peripherals, &norm);
    assert_eq!(items.len(), 4);
    assert!(matches!(&items[0], GeneratedItem::BlockType { block } if block == "GPIOA"));
    match &items[1] {
        GeneratedItem::RegisterAccessor { register, offset, width, read, write, modify, .. } => {
            assert_eq!(register, "ODR");
            assert_eq!(*offset, 0x0C);
            assert_eq!(*width, 32);
            assert!(*read && *write && *modify);
        }
        other => panic!("unexpected {:?}", other),
    }
    match &items[2] {
        GeneratedItem::FieldAccessor { field, bit_offset, bit_width, get, set, .. } => {
            assert_eq!(field, "PIN0");
            assert_eq!((*bit_offset, *bit_width), (0, 1));
            assert!(*get && *set);
        }
        other => panic!("unexpected {:?}", other),
    }
    assert!(matches!(&items[3], GeneratedItem::Instance { name, block, base_address: 0x4000_0000 }
        if name == "GPIOA" && block == "GPIOA"));
}

#[test]
fn gpioa_code_text() {
    let a = render(&gpioa_device(), Target::Generic, false).unwrap();
    let expected = [
        "#[repr(C)]\npub struct GPIOA;\n",
        "impl GPIOA {\n    /// Reset value: 0x0\n    /// `modify` reads, then writes: it is not atomic.\n",
        "    pub const ODR: Reg<u32, ReadWrite> = Reg::at(0xc);\n}\n",
        "impl GPIOA {\n    pub const ODR_PIN0: Field<ReadWrite> = Field::bits(0, 1);\n}\n",
        "pub const GPIOA: Peripheral<GPIOA> = Peripheral::at(0x40000000);\n",
    ]
    .concat();
    assert_eq!(a.code, expected);
    assert!(a.linker_script.is_none());
    assert!(!a.build_script);
}

#[test]
fn cortex_m_adds_linker_script_and_build_program() {
    let mut d = gpioa_device();
    d.interrupts = vec![irq("EXTI0", 1)];
    let a = render(&d, Target::CortexM, true).unwrap();
    assert!(a.code.starts_with("#![feature(const_fn)]\n"));
    assert!(a.build_script);
    let ls = a.linker_script.unwrap();
    assert!(ls.starts_with("PROVIDE(EXTI0 = DefaultHandler);\n"));
    let plain = render(&d, Target::Msp430, true).unwrap();
    assert!(!plain.code.starts_with("#!"));
    assert!(plain.linker_script.is_none());
}

#[test]
fn rendering_twice_gives_identical_output() {
    let mut d = gpioa_device();
    d.interrupts = vec![irq("UART0", 2), irq("TIMER1", 5)];
    let a = render(&d, Target::CortexM, false).unwrap();
    let b = render(&d, Target::CortexM, false).unwrap();
    assert_eq!(a.code, b.code);
    assert_eq!(a.linker_script, b.linker_script);
    assert_eq!(a.build_script, b.build_script);
}

#[test]
fn derived_peripheral_inherits_unredefined_blocks() {
    let uart0 = peripheral_blocks("UART0", 0x1000, None, vec![
        block("CTRL", 0, 4, vec![register("CR", 0, Access::ReadWrite, vec![])]),
        block("DATA", 4, 4, vec![register("DR", 0, Access::ReadWrite, vec![])]),
    ]);
    let uart1 = peripheral_blocks("UART1", 0x2000, Some("UART0"), vec![
        block("DATA", 8, 4, vec![register("DR", 0, Access::ReadOnly, vec![])]),
    ]);
    let d = device(vec![uart0, uart1], vec![]);
    let norm = normalize(&d).unwrap();
    assert_eq!(norm[1].layout, vec![BlockRef { peripheral: 0, block: 0 }, BlockRef { peripheral: 1, block: 0 }]);
    assert_eq!(norm[0].layout, vec![BlockRef { peripheral: 0, block: 0 }, BlockRef { peripheral: 0, block: 1 }]);
    assert_eq!(norm[1].type_index, 1);
    let items = render_items(&d.peripherals, &norm);
    let offsets: Vec<(String, u64)> = items
        .iter()
        .filter_map(|i| match i {
            GeneratedItem::RegisterAccessor { block, register, offset, .. } if block == "UART1" => {
                Some((register.clone(), *offset))
            }
            _ => None,
        })
        .collect();
    assert_eq!(offsets, vec![("CR".to_string(), 0), ("DR".to_string(), 8)]);
}

#[test]
fn register_outside_its_block_is_refused() {
    let p = peripheral_blocks("P", 0, None, vec![block("B", 0, 4, vec![register("R", 2, Access::ReadWrite, vec![])])]);
    match normalize(&device(vec![p], vec![])) {
        Err(ModelError::RegisterOutOfBlock { peripheral, block, register }) => {
            assert_eq!((peripheral.as_str(), block.as_str(), register.as_str()), ("P", "B", "R"));
        }
        _ => panic!("expected a register outside its block"),
    }
}

#[test]
fn derived_without_override_shares_type() {
    let uart0 = peripheral("UART0", 0x1000, None, vec![register("DR", 4, Access::ReadWrite, vec![])]);
    let uart1 = peripheral("UART1", 0x1000, Some("UART0"), vec![]);
    let d = device(vec![uart0, uart1], vec![]);
    let norm = normalize(&d).unwrap();
    assert_eq!(norm[1].type_index, 0);
}

#[test]
fn read_only_field_has_no_setter_and_write_only_no_getter() {
    let sr = register("SR", 0, Access::ReadOnly, vec![field("BUSY", 0, 1, None)]);
    let dr = register("DR", 4, Access::WriteOnly, vec![field("DATA", 0, 8, None)]);
    let rw = register("CR", 8, Access::ReadWrite, vec![field("FLAG", 0, 1, Some(Access::ReadOnly))]);
    let d = device(vec![peripheral("SPI", 0x3000, None, vec![sr, dr, rw])], vec![]);
    let norm = normalize(&d).unwrap();
    let items = render_items(&d.peripherals, &norm);
    let mut seen = 0;
    for item in &items {
        match item {
            GeneratedItem::FieldAccessor { field, get, set, .. } => {
                seen += 1;
                match field.as_str() {
                    "BUSY" | "FLAG" => assert!(*get && !*set),
                    "DATA" => assert!(!*get && *set),
                    _ => panic!("unexpected field"),
                }
            }
            GeneratedItem::RegisterAccessor { register, read, write, modify, .. } => {
                match register.as_str() {
                    "SR" => assert!(*read && !*write && !*modify),
                    "DR" => assert!(!*read && *write && !*modify),
                    _ => assert!(*read && *write && *modify),
                }
            }
            _ => {}
        }
    }
    assert_eq!(seen, 3);
}

#[test]
fn identical_peripherals_share_one_type() {
    let regs = || vec![register("CTRL", 0, Access::ReadWrite, vec![field("EN", 0, 1, None)])];
    let d = device(vec![peripheral("TIM1", 0x1000, None, regs()), peripheral("TIM2", 0x2000, None, regs())], vec![]);
    let norm = normalize(&d).unwrap();
    assert_eq!(norm[1].type_index, 0);
    let items = render_items(&d.peripherals, &norm);
    let last = items.last().unwrap();
    assert!(matches!(last, GeneratedItem::Instance { name, block, base_address: 0x2000 }
        if name == "TIM2" && block == "TIM1"));
    let blocks = items.iter().filter(|i| matches!(i, GeneratedItem::BlockType { .. })).count();
    assert_eq!(blocks, 1);
}

#[test]
fn enumerated_values_become_constants() {
    let mut f = field("MODE", 0, 2, None);
    f.values = vec![
        EnumValue { name: "INPUT".to_string(), value: 0, usage: Usage::ReadWrite },
        EnumValue { name: "OUTPUT".to_string(), value: 1, usage: Usage::ReadWrite },
    ];
    let d = device(vec![peripheral("GPIOB", 0x4000_0400, None, vec![register("MODER", 0, Access::ReadWrite, vec![f])])], vec![]);
    let a = render(&d, Target::RISCV, false).unwrap();
    assert!(a.code.contains("impl GPIOB {\n    pub const MODER_MODE_OUTPUT: u64 = 0x1;\n}\n"));
    assert!(a.code.contains("Peripheral::at(0x40000400)"));
}

#[test]
fn overlapping_peripherals_are_refused() {
    let a = peripheral("ADC1", 0x1000, None, vec![register("DR", 0, Access::ReadOnly, vec![])]);
    let b = peripheral("ADC2", 0x1002, None, vec![register("DR", 0, Access::ReadOnly, vec![])]);
    let d = device(vec![a, b], vec![]);
    match render(&d, Target::CortexM, false) {
        Err(RenderError::Model(ModelError::OverlappingPeripherals { first, second })) => {
            assert_eq!(first, "ADC1");
            assert_eq!(second, "ADC2");
        }
        _ => panic!("expected an overlap error"),
    }
}

#[test]
fn adjacent_peripherals_are_accepted() {
    let a = peripheral("ADC1", 0x1000, None, vec![register("DR", 0, Access::ReadOnly, vec![])]);
    let b = peripheral("ADC2", 0x1004, None, vec![register("DR", 0, Access::ReadOnly, vec![])]);
    assert!(normalize(&device(vec![a, b], vec![])).is_ok());
}

#[test]
fn dangling_derive_is_refused() {
    let a = peripheral("UART1", 0x1000, Some("UART9"), vec![]);
    match normalize(&device(vec![a], vec![])) {
        Err(ModelError::DanglingDerive { peripheral, source }) => {
            assert_eq!(peripheral, "UART1");
            assert_eq!(source, "UART9");
        }
        _ => panic!("expected a dangling derive"),
    }
}

#[test]
fn field_errors_are_reported() {
    let wide = register("R", 0, Access::ReadWrite, vec![field("F", 30, 4, None)]);
    let d = device(vec![peripheral("P", 0, None, vec![wide])], vec![]);
    assert!(matches!(normalize(&d), Err(ModelError::FieldOutOfRange { .. })));
    let ro = register("R", 0, Access::ReadOnly, vec![field("F", 0, 1, Some(Access::ReadWrite))]);
    let d = device(vec![peripheral("P", 0, None, vec![ro])], vec![]);
    assert!(matches!(normalize(&d), Err(ModelError::FieldAccess { .. })));
    let both = register("R", 0, Access::ReadWrite, vec![field("A", 0, 4, None), field("B", 3, 2, None)]);
    let d = device(vec![peripheral("P", 0, None, vec![both])], vec![]);
    match normalize(&d) {
        Err(ModelError::OverlappingFields { peripheral, register, first, second }) => {
            assert_eq!((peripheral.as_str(), register.as_str()), ("P", "R"));
            assert_eq!((first.as_str(), second.as_str()), ("A", "B"));
        }
        _ => panic!("expected overlapping fields"),
    }
}

#[test]
fn address_overflow_is_refused() {
    let p = peripheral("TOP", u64::MAX - 1, None, vec![register("R", 0, Access::ReadWrite, vec![])]);
    assert!(matches!(normalize(&device(vec![p], vec![])), Err(ModelError::AddressOverflow { .. })));
}

#[test]
fn numbers_are_formatted() {
    let mut s = String::from("x");
    push_hex(&mut s, 0xdead_beef);
    assert_eq!(s, "xdeadbeef");
    let mut s = String::new();
    push_dec(&mut s, 1234);
    assert_eq!(s, "1234");
    let mut s = String::new();
    push_hex(&mut s, 0);
    assert_eq!(s, "0");
}

#[test]
fn duplicate_enumerated_value_is_refused() {
    let mut f = field("MODE", 0, 2, None);
    f.values = vec![
        EnumValue { name: "A".to_string(), value: 2, usage: Usage::ReadWrite },
        EnumValue { name: "B".to_string(), value: 1, usage: Usage::ReadWrite },
        EnumValue { name: "C".to_string(), value: 2, usage: Usage::ReadWrite },
    ];
    let d = device(vec![peripheral("P", 0, None, vec![register("R", 0, Access::ReadWrite, vec![f])])], vec![]);
    match normalize(&d) {
        Err(ModelError::DuplicateEnumValue { field, value, .. }) => {
            assert_eq!(field, "MODE");
            assert_eq!(value, 2);
        }
        _ => panic!("expected a duplicate value"),
    }
}

#[test]
fn runtime_support_only_for_cortex_m() {
    assert!(Target::CortexM.has_runtime_support());
    assert!(!Target::Msp430.has_runtime_support());
    assert!(!Target::RISCV.has_runtime_support());
    assert!(!Target::Generic.has_runtime_support());
}

#[test]
fn derive_chain_resolves_through_earlier_source() {
    let uart0 = peripheral_blocks("UART0", 0x1000, None, vec![
        block("CTRL", 0, 4, vec![register("CR", 0, Access::ReadWrite, vec![])]),
        block("DATA", 4, 4, vec![register("DR", 0, Access::ReadWrite, vec![])]),
    ]);
    let uart1 = peripheral_blocks("UART1", 0x2000, Some("UART0"), vec![
        block("DATA", 4, 4, vec![register("DR", 0, Access::ReadOnly, vec![])]),
    ]);
    let uart2 = peripheral_blocks("UART2", 0x3000, Some("UART1"), vec![
        block("EXTRA", 8, 4, vec![register("XR", 0, Access::ReadWrite, vec![])]),
    ]);
    let d = device(vec![uart0, uart1, uart2], vec![]);
    let norm = normalize(&d).unwrap();
    assert_eq!(norm[2].layout, vec![
        BlockRef { peripheral: 0, block: 0 },
        BlockRef { peripheral: 1, block: 0 },
        BlockRef { peripheral: 2, block: 0 },
    ]);
}

#[test]
fn derive_from_later_derived_peripheral_is_refused() {
    let a = peripheral_blocks("A", 0x1000, Some("B"), vec![]);
    let b = peripheral_blocks("B", 0x2000, Some("C"), vec![]);
    let c = peripheral("C", 0x3000, None, vec![register("R", 0, Access::ReadWrite, vec![])]);
    match normalize(&device(vec![a, b, c], vec![])) {
        Err(ModelError::DanglingDerive { peripheral, source }) => {
            assert_eq!((peripheral.as_str(), source.as_str()), ("A", "B"));
        }
        _ => panic!("expected a refused derive"),
    }
    let selfish = peripheral_blocks("S", 0x1000, Some("S"), vec![]);
    assert!(matches!(normalize(&device(vec![selfish], vec![])), Err(ModelError::DanglingDerive { .. })));
}

#[test]
fn values_in_separate_directions_may_share_a_number() {
    let mut f = field("MODE", 0, 2, None);
    f.values = vec![
        EnumValue { name: "IDLE".to_string(), value: 1, usage: Usage::Read },
        EnumValue { name: "START".to_string(), value: 1, usage: Usage::Write },
    ];
    let d = device(vec![peripheral("P", 0, None, vec![register("R", 0, Access::ReadWrite, vec![f.clone()])])], vec![]);
    assert!(normalize(&d).is_ok());
    f.values[1].usage = Usage::ReadWrite;
    let d = device(vec![peripheral("P", 0, None, vec![register("R", 0, Access::ReadWrite, vec![f])])], vec![]);
    assert!(matches!(normalize(&d), Err(ModelError::DuplicateEnumValue { value: 1, .. })));
}

#[test]
fn enumerated_value_wider_than_field_is_refused() {
    let mut f = field("MODE", 0, 2, None);
    f.values = vec![
        EnumValue { name: "LOW".to_string(), value: 3, usage: Usage::ReadWrite },
        EnumValue { name: "HIGH".to_string(), value: 4, usage: Usage::ReadWrite },
    ];
    let d = device(vec![peripheral("P", 0, None, vec![register("R", 0, Access::ReadWrite, vec![f])])], vec![]);
    match normalize(&d) {
        Err(ModelError::ValueOutOfRange { field, value, .. }) => {
            assert_eq!(field, "MODE");
            assert_eq!(value, 4);
        }
        _ => panic!("expected a value out of range"),
    }
    let mut g = field("ALL", 0, 32, None);
    g.values = vec![EnumValue { name: "MAX".to_string(), value: 0xffff_ffff, usage: Usage::Read }];
    let d = device(vec![peripheral("P", 0, None, vec![register("R", 0, Access::ReadWrite, vec![g])])], vec![]);
    assert!(normalize(&d).is_ok());
}
