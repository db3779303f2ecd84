use win32::dll::{
    to_decimal, BuiltinDLL, Export, GetProcAddressArg, ImportSymbol, NameTable, PeDll, DLL,
    HMODULE,
};
use win32::mem::Mem;
use win32::shims::Shim;

fn export(name: &str, func: u64, ordinal: Option<usize>) -> Export {
    Export { shim: Shim { name: String::from(name), func, stack_consumed: 8 }, ordinal }
}

fn builtin() -> BuiltinDLL {
    BuiltinDLL {
        file_name: String::from("kernel32.dll"),
        exports: vec![
            export("ExitProcess", 0x10, None),
            export("GetTickCount", 0x20, Some(7)),
            export("GetTickCount", 0x30, Some(9)),
        ],
    }
}

fn module(builtin: Option<BuiltinDLL>) -> DLL {
    let builtin: Option<&'static BuiltinDLL> = builtin.map(|b| &*Box::leak(Box::new(b)));
    DLL { name: String::from("kernel32.dll"), dll: PeDll::new(), builtin }
}

#[test]
fn module_handle_is_index_plus_one() {
    let handle = HMODULE::from_dll_index(0);
    assert_eq!(handle.raw, 1);
    assert_eq!(handle.to_dll_index(), Some(0));
    assert_eq!(HMODULE::from_dll_index(41).to_dll_index(), Some(41));
    assert_eq!(HMODULE::from_raw(0xffff_ffff).to_dll_index(), Some(0xffff_fffe));
}

#[test]
fn null_handle_has_no_index() {
    assert!(HMODULE::null().is_null());
    assert_eq!(HMODULE::null().to_dll_index(), None);
    assert!(!HMODULE::from_raw(3).is_null());
}

#[test]
fn decimal_text() {
    assert_eq!(to_decimal(0), "0");
    assert_eq!(to_decimal(7), "7");
    assert_eq!(to_decimal(10), "10");
    assert_eq!(to_decimal(1203), "1203");
    assert_eq!(to_decimal(u32::MAX), "4294967295");
    assert_eq!(ImportSymbol::Ordinal(42).text(), "42");
    assert_eq!(ImportSymbol::Name(String::from("CreateFileA")).text(), "CreateFileA");
}

#[test]
fn name_table_replaces_on_insert() {
    let mut table = NameTable::new();
    assert_eq!(table.get(&String::from("a")), None);
    table.insert(String::from("a"), 1);
    table.insert(String::from("b"), 2);
    table.insert(String::from("a"), 3);
    assert_eq!(table.get(&String::from("a")), Some(3));
    assert_eq!(table.get(&String::from("b")), Some(2));
    assert_eq!(table.get(&String::from("c")), None);
}

#[test]
fn resolve_prefers_the_modules_own_exports() {
    let mut dll = module(Some(builtin()));
    dll.dll.names.insert(String::from("ExitProcess"), 0x40_1000);
    dll.dll.ordinals.insert(7, 0x40_2000);
    let addr = dll.resolve(ImportSymbol::Name(String::from("ExitProcess")), |_| {
        panic!("must not register")
    });
    assert_eq!(addr, 0x40_1000);
    let addr = dll.resolve(ImportSymbol::Ordinal(7), |_| panic!("must not register"));
    assert_eq!(addr, 0x40_2000);
}

#[test]
fn resolve_registers_builtin_by_name_and_remembers() {
    let mut dll = module(Some(builtin()));
    let sym = ImportSymbol::Name(String::from("GetTickCount"));
    let addr = dll.resolve_from_builtin(&sym, |found| match found {
        Ok(shim) => {
            // the first export of that name
            assert_eq!(shim.func, 0x20);
            0x5000
        }
        Err(_) => 0,
    });
    assert_eq!(addr, Some(0x5000));
    assert_eq!(dll.resolve_from_pe(&sym), Some(0x5000));
    assert_eq!(dll.resolve(sym, |_| panic!("must not register again")), 0x5000);
}

#[test]
fn resolve_registers_builtin_by_ordinal() {
    let mut dll = module(Some(builtin()));
    let addr = dll.resolve(ImportSymbol::Ordinal(9), |found| match found {
        Ok(shim) => shim.func as u32 + 1,
        Err(_) => 0,
    });
    assert_eq!(addr, 0x31);
    assert_eq!(dll.resolve_from_pe(&ImportSymbol::Ordinal(9)), Some(0x31));
    assert_eq!(dll.resolve_from_pe(&ImportSymbol::Ordinal(7)), None);
}

#[test]
fn missing_builtin_export_is_registered_under_its_name() {
    let mut dll = module(Some(builtin()));
    let addr = dll.resolve(ImportSymbol::Name(String::from("Nope")), |found| match found {
        Ok(_) => 0,
        Err(name) => {
            assert_eq!(name, "kernel32.dll:Nope");
            0x6000
        }
    });
    assert_eq!(addr, 0x6000);
    let addr = dll.resolve(ImportSymbol::Ordinal(1234), |found| match found {
        Ok(_) => 0,
        Err(name) => {
            assert_eq!(name, "kernel32.dll:1234");
            0x6008
        }
    });
    assert_eq!(addr, 0x6008);
    assert_eq!(dll.resolve_from_pe(&ImportSymbol::Ordinal(1234)), Some(0x6008));
}

#[test]
fn module_without_builtin_resolves_to_zero() {
    let mut dll = module(None);
    let sym = ImportSymbol::Name(String::from("ExitProcess"));
    assert_eq!(dll.resolve_from_builtin(&sym, |_| panic!("must not register")), None);
    assert_eq!(dll.resolve(sym, |_| panic!("must not register")), 0);
}

#[test]
fn builtin_find_gives_first_match() {
    let builtin = builtin();
    assert_eq!(builtin.find(&ImportSymbol::Name(String::from("GetTickCount"))), 1);
    assert_eq!(builtin.find(&ImportSymbol::Ordinal(9)), 2);
    assert_eq!(builtin.find(&ImportSymbol::Ordinal(8)), 3);
    assert_eq!(builtin.find(&ImportSymbol::Name(String::from("gettickcount"))), 3);
}

#[test]
fn stack_argument_with_zero_high_half_is_an_ordinal() {
    let mut mem = Mem::new(0x1_0000, 64);
    mem.put_u32(0x1_0000, 0xffff);
    match GetProcAddressArg::from_stack(&mem, 0x1_0000).0 {
        ImportSymbol::Ordinal(ord) => assert_eq!(ord, 0xffff),
        ImportSymbol::Name(_) => panic!("not a name"),
    }
}

#[test]
fn stack_argument_with_high_half_is_the_address_of_a_name() {
    let mut mem = Mem::new(0x1_0000, 64);
    mem.put_u32(0x1_0004, 0x1_0010);
    mem.write(0x1_0010, b"GetProcAddress\0junk");
    match GetProcAddressArg::from_stack(&mem, 0x1_0004).0 {
        ImportSymbol::Name(name) => assert_eq!(name, "GetProcAddress"),
        ImportSymbol::Ordinal(_) => panic!("not an ordinal"),
    }
}
