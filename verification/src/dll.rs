//! Loaded modules and how an import is resolved to an address that guest code
//! can call.

use crate::mem::Mem;
use crate::shims::Shim;
use std::collections::HashMap;
use std::marker::PhantomData;
use vstd::prelude::*;
use vstd::string::StringExecFns;

verus! {

broadcast use vstd::std_specs::hash::group_hash_axioms;

/// Marks a handle as one of a module.
#[derive(Copy, Clone, Debug, Eq, PartialEq, Hash)]
pub struct HMODULET;

/// A handle as guest code sees it: a 32-bit number, 0 for none.
#[allow(non_camel_case_types)]
pub struct HANDLE<T> {
    pub raw: u32,
    pub marker: PhantomData<T>,
}

/// The handle of a loaded module: its index in the list of modules, plus one.
pub type HMODULE = HANDLE<HMODULET>;

impl<T> HANDLE<T> {
    /// The handle with the number `raw`.
    pub fn from_raw(raw: u32) -> (h: Self)
        ensures
            h.raw == raw,
    {
        HANDLE { raw, marker: PhantomData }
    }

    /// The handle that stands for nothing.
    pub fn null() -> (h: Self)
        ensures
            h.raw == 0,
    {
        HANDLE { raw: 0, marker: PhantomData }
    }

    /// Whether the handle stands for nothing.
    pub fn is_null(&self) -> (none: bool)
        ensures
            none == (self.raw == 0),
    {
        self.raw == 0
    }
}

impl HANDLE<HMODULET> {
    /// The handle of the module at `index`.
    pub fn from_dll_index(index: usize) -> (h: Self)
        requires
            index < u32::MAX,
        ensures
            h.raw == handle_number(index),
    {
        HANDLE::from_raw((index + 1) as u32)
    }

    /// The index of the module that the handle stands for; none for the null
    /// handle.
    pub fn to_dll_index(&self) -> (index: Option<usize>)
        ensures
            index == handle_index(self.raw),
    {
        if self.is_null() {
            return None;
        }
        Some(self.raw as usize - 1)
    }
}

/// The number of the handle for the module at `index`.
pub open spec fn handle_number(index: usize) -> int {
    index + 1
}

/// The index of the module whose handle has the number `raw`; none for 0.
pub open spec fn handle_index(raw: u32) -> Option<usize> {
    if raw == 0 {
        None
    } else {
        Some((raw - 1) as usize)
    }
}

/// A handle made from an index leads back to that index.
pub proof fn lemma_handle_round_trip(index: usize)
    requires
        index < u32::MAX,
    ensures
        handle_index(handle_number(index) as u32) == Some(index),
{
}

/// What an import names: an exported function by its name or by its number.
#[derive(Debug)]
pub enum ImportSymbol {
    Name(String),
    Ordinal(u32),
}

/// The character for the decimal digit `d`.
pub open spec fn digit(d: int) -> char {
    if d == 0 {
        '0'
    } else if d == 1 {
        '1'
    } else if d == 2 {
        '2'
    } else if d == 3 {
        '3'
    } else if d == 4 {
        '4'
    } else if d == 5 {
        '5'
    } else if d == 6 {
        '6'
    } else if d == 7 {
        '7'
    } else if d == 8 {
        '8'
    } else {
        '9'
    }
}

/// `n` in decimal digits, without leading zeros.
pub open spec fn decimal(n: nat) -> Seq<char>
    decreases n,
{
    if n < 10 {
        seq![digit(n as int)]
    } else {
        decimal(n / 10) + seq![digit((n % 10) as int)]
    }
}

/// The text of a symbol: the name itself, or the number in decimal digits.
pub open spec fn symbol_text(sym: ImportSymbol) -> Seq<char> {
    match sym {
        ImportSymbol::Name(name) => name@,
        ImportSymbol::Ordinal(ord) => decimal(ord as nat),
    }
}

/// The name under which a symbol that has no implementation is registered:
/// the module's name, a colon and the symbol's text.
pub open spec fn missing_name(module: Seq<char>, sym: ImportSymbol) -> Seq<char> {
    module + seq![':'] + symbol_text(sym)
}

/// The one-character text of the decimal digit `d`.
fn digit_text(d: u32) -> (text: &'static str)
    requires
        d < 10,
    ensures
        text@ == seq![digit(d as int)],
{
    proof {
        reveal_strlit("0");
        reveal_strlit("1");
        reveal_strlit("2");
        reveal_strlit("3");
        reveal_strlit("4");
        reveal_strlit("5");
        reveal_strlit("6");
        reveal_strlit("7");
        reveal_strlit("8");
        reveal_strlit("9");
    }
    let text = if d == 0 {
        "0"
    } else if d == 1 {
        "1"
    } else if d == 2 {
        "2"
    } else if d == 3 {
        "3"
    } else if d == 4 {
        "4"
    } else if d == 5 {
        "5"
    } else if d == 6 {
        "6"
    } else if d == 7 {
        "7"
    } else if d == 8 {
        "8"
    } else {
        "9"
    };
    assert(text@ =~= seq![digit(d as int)]);
    text
}

/// `n` in decimal digits.
pub fn to_decimal(n: u32) -> (text: String)
    ensures
        text@ == decimal(n as nat),
    decreases n,
{
    if n < 10 {
        String::from_str(digit_text(n))
    } else {
        to_decimal(n / 10).concat(digit_text(n % 10))
    }
}

impl ImportSymbol {
    /// The symbol's text: the name itself, or the number in decimal digits.
    pub fn text(&self) -> (text: String)
        ensures
            text@ == symbol_text(*self),
    {
        match self {
            ImportSymbol::Name(name) => name.clone(),
            ImportSymbol::Ordinal(ord) => to_decimal(*ord),
        }
    }
}

/// The value that `table` holds for `key`: that of the first entry with this
/// key.
pub open spec fn lookup(table: Seq<(String, u32)>, key: Seq<char>) -> Option<u32>
    decreases table.len(),
{
    if table.len() == 0 {
        None
    } else if table[0].0@ == key {
        Some(table[0].1)
    } else {
        lookup(table.drop_first(), key)
    }
}

/// Addresses by name.
pub struct NameTable {
    entries: Vec<(String, u32)>,
}

impl View for NameTable {
    type V = Map<Seq<char>, u32>;

    closed spec fn view(&self) -> Map<Seq<char>, u32> {
        Map::new(
            |key: Seq<char>| lookup(self.entries@, key) is Some,
            |key: Seq<char>| lookup(self.entries@, key).unwrap(),
        )
    }
}

/// Looking a key up at an index where it stands, with no entry for it before.
proof fn lemma_lookup_at(table: Seq<(String, u32)>, key: Seq<char>, k: int)
    requires
        0 <= k <= table.len(),
        forall|j: int| 0 <= j < k ==> (#[trigger] table[j]).0@ != key,
        k < table.len() ==> table[k].0@ == key,
    ensures
        lookup(table, key) == (if k < table.len() {
            Some(table[k].1)
        } else {
            None
        }),
    decreases table.len(),
{
    if table.len() > 0 && k > 0 {
        let rest = table.drop_first();
        assert(table[0].0@ != key);
        assert forall|j: int| 0 <= j < k - 1 implies (#[trigger] rest[j]).0@ != key by {
            assert(rest[j] == table[j + 1]);
        }
        lemma_lookup_at(rest, key, k - 1);
    }
}

/// Replacing the value at `k`, or adding an entry for a key that has none,
/// changes what is found for that key and for no other.
proof fn lemma_lookup_set(
    table: Seq<(String, u32)>,
    after: Seq<(String, u32)>,
    entry: (String, u32),
    k: int,
    other: Seq<char>,
)
    requires
        0 <= k <= table.len(),
        forall|j: int| 0 <= j < k ==> (#[trigger] table[j]).0@ != entry.0@,
        k < table.len() ==> table[k].0@ == entry.0@,
        after == (if k < table.len() {
            table.update(k, entry)
        } else {
            table.push(entry)
        }),
    ensures
        lookup(after, other) == (if other == entry.0@ {
            Some(entry.1)
        } else {
            lookup(table, other)
        }),
    decreases table.len(),
{
    if table.len() == 0 {
        assert(after.drop_first() =~= Seq::<(String, u32)>::empty());
    } else if k == 0 {
        assert(after.drop_first() =~= table.drop_first());
    } else {
        let rest = table.drop_first();
        let rest_after = after.drop_first();
        assert(table[0].0@ != entry.0@);
        assert(after[0] == table[0]);
        assert forall|j: int| 0 <= j < k - 1 implies (#[trigger] rest[j]).0@ != entry.0@ by {
            assert(rest[j] == table[j + 1]);
        }
        assert(rest_after =~= (if k - 1 < rest.len() {
            rest.update(k - 1, entry)
        } else {
            rest.push(entry)
        }));
        lemma_lookup_set(rest, rest_after, entry, k - 1, other);
    }
}

impl NameTable {
    /// A table without entries.
    pub fn new() -> (table: NameTable)
        ensures
            table@ == Map::<Seq<char>, u32>::empty(),
    {
        let table = NameTable { entries: Vec::new() };
        assert(table@ =~= Map::<Seq<char>, u32>::empty());
        table
    }

    /// Index of the first entry for `name`; the number of entries when there
    /// is none.
    fn position(&self, name: &String) -> (k: usize)
        ensures
            0 <= k <= self.entries@.len(),
            forall|j: int| 0 <= j < k ==> (#[trigger] self.entries@[j]).0@ != name@,
            k < self.entries@.len() ==> self.entries@[k as int].0@ == name@,
    {
        let mut k: usize = 0;
        while k < self.entries.len()
            invariant
                0 <= k <= self.entries@.len(),
                forall|j: int| 0 <= j < k ==> (#[trigger] self.entries@[j]).0@ != name@,
            decreases self.entries@.len() - k,
        {
            if self.entries[k].0 == *name {
                return k;
            }
            k = k + 1;
        }
        k
    }

    /// The address recorded for `name`.
    pub fn get(&self, name: &String) -> (addr: Option<u32>)
        ensures
            addr == (if self@.contains_key(name@) {
                Some(self@[name@])
            } else {
                None
            }),
    {
        let k = self.position(name);
        proof {
            lemma_lookup_at(self.entries@, name@, k as int);
        }
        if k < self.entries.len() {
            Some(self.entries[k].1)
        } else {
            None
        }
    }

    /// Records `addr` for `name`, in place of what was recorded for it.
    pub fn insert(&mut self, name: String, addr: u32)
        ensures
            final(self)@ == old(self)@.insert(name@, addr),
    {
        let k = self.position(&name);
        let ghost entry = (name, addr);
        if k < self.entries.len() {
            self.entries.set(k, (name, addr));
        } else {
            self.entries.push((name, addr));
        }
        proof {
            assert forall|other: Seq<char>|
                #[trigger] lookup(self.entries@, other) == (if other == entry.0@ {
                    Some(addr)
                } else {
                    lookup(old(self).entries@, other)
                }) by {
                lemma_lookup_set(old(self).entries@, self.entries@, entry, k as int, other);
            }
            assert(self@ =~= old(self)@.insert(name@, addr));
        }
    }
}

/// What a loaded module exports: addresses by name and by number, and where
/// the module starts running.
pub struct PeDll {
    pub names: NameTable,
    pub ordinals: HashMap<u32, u32>,
    pub entry_point: u32,
}

impl PeDll {
    /// A module that exports nothing.
    pub fn new() -> (dll: PeDll)
        ensures
            dll.names@ == Map::<Seq<char>, u32>::empty(),
            dll.ordinals@ == Map::<u32, u32>::empty(),
            dll.entry_point == 0,
    {
        PeDll { names: NameTable::new(), ordinals: HashMap::new(), entry_point: 0 }
    }

    /// The address that the module records for `sym`.
    pub open spec fn recorded(&self, sym: ImportSymbol) -> Option<u32> {
        match sym {
            ImportSymbol::Name(name) => if self.names@.contains_key(name@) {
                Some(self.names@[name@])
            } else {
                None
            },
            ImportSymbol::Ordinal(ord) => if self.ordinals@.contains_key(ord) {
                Some(self.ordinals@[ord])
            } else {
                None
            },
        }
    }

    /// `self` is `before` with `addr` recorded for `sym`.
    pub open spec fn records(&self, before: PeDll, sym: ImportSymbol, addr: u32) -> bool {
        &&& self.entry_point == before.entry_point
        &&& match sym {
            ImportSymbol::Name(name) => {
                &&& self.names@ == before.names@.insert(name@, addr)
                &&& self.ordinals@ == before.ordinals@
            },
            ImportSymbol::Ordinal(ord) => {
                &&& self.names@ == before.names@
                &&& self.ordinals@ == before.ordinals@.insert(ord, addr)
            },
        }
    }
}

/// A native function that a builtin module exports, and its number if it has
/// one.
pub struct Export {
    pub shim: Shim,
    pub ordinal: Option<usize>,
}

/// A module that is implemented natively.
pub struct BuiltinDLL {
    pub file_name: String,
    pub exports: Vec<Export>,
}

/// Export `e` is what `sym` names.
pub open spec fn answers(e: Export, sym: ImportSymbol) -> bool {
    match sym {
        ImportSymbol::Name(name) => e.shim.name@ == name@,
        ImportSymbol::Ordinal(ord) => e.ordinal == Some(ord as usize),
    }
}

/// Index of the first of `exports` that `sym` names; their number when there
/// is none.
pub open spec fn first_answer(exports: Seq<Export>, sym: ImportSymbol) -> int
    decreases exports.len(),
{
    if exports.len() == 0 || answers(exports[0], sym) {
        0
    } else {
        1 + first_answer(exports.drop_first(), sym)
    }
}

/// The first export that `sym` names, with none before it, is what
/// `first_answer` finds.
pub proof fn lemma_first_answer_is(exports: Seq<Export>, sym: ImportSymbol, k: int)
    requires
        0 <= k <= exports.len(),
        forall|j: int| 0 <= j < k ==> !answers(#[trigger] exports[j], sym),
        k < exports.len() ==> answers(exports[k], sym),
    ensures
        first_answer(exports, sym) == k,
    decreases exports.len(),
{
    if exports.len() > 0 && k > 0 {
        let rest = exports.drop_first();
        assert(!answers(exports[0], sym));
        assert forall|j: int| 0 <= j < k - 1 implies !answers(#[trigger] rest[j], sym) by {
            assert(rest[j] == exports[j + 1]);
        }
        lemma_first_answer_is(rest, sym, k - 1);
    }
}

impl BuiltinDLL {
    /// Index of the first export that `sym` names; the number of exports when
    /// there is none.
    pub fn find(&self, sym: &ImportSymbol) -> (k: usize)
        ensures
            k == first_answer(self.exports@, *sym),
            0 <= k <= self.exports@.len(),
            k < self.exports@.len() ==> answers(self.exports@[k as int], *sym),
    {
        let mut k: usize = 0;
        while k < self.exports.len()
            invariant
                0 <= k <= self.exports@.len(),
                forall|j: int| 0 <= j < k ==> !answers(#[trigger] self.exports@[j], *sym),
            decreases self.exports@.len() - k,
        {
            let export = &self.exports[k];
            let hit = match sym {
                ImportSymbol::Name(name) => export.shim.name == *name,
                ImportSymbol::Ordinal(ord) => match export.ordinal {
                    Some(number) => number == *ord as usize,
                    None => false,
                },
            };
            if hit {
                proof {
                    lemma_first_answer_is(self.exports@, *sym, k as int);
                }
                return k;
            }
            k = k + 1;
        }
        proof {
            lemma_first_answer_is(self.exports@, *sym, k as int);
        }
        k
    }
}

/// A loaded module.
pub struct DLL {
    pub name: String,
    pub dll: PeDll,
    /// If present, the module is one that is implemented natively.
    pub builtin: Option<&'static BuiltinDLL>,
}

impl DLL {
    /// What `register` is handed for `sym` by a module with the exports
    /// `builtin`: the native function that `sym` names, or the name to
    /// register a missing function under.
    pub open spec fn asks(&self, builtin: BuiltinDLL, sym: ImportSymbol, arg: Result<&Shim, String>) -> bool {
        let k = first_answer(builtin.exports@, sym);
        if k < builtin.exports@.len() {
            arg == Ok::<&Shim, String>(&builtin.exports@[k].shim)
        } else {
            arg is Err && arg->Err_0@ == missing_name(self.name@, sym)
        }
    }

    /// `after` and `addr` are what resolving `sym` makes of the module
    /// `self`: the address that its own export tables hold, with nothing
    /// changed; else, for a module with a native implementation, the address
    /// that `register` gave, now recorded for `sym`; else 0, with nothing
    /// changed.
    pub open spec fn resolves<F: FnOnce(Result<&Shim, String>) -> u32>(
        &self,
        after: DLL,
        sym: ImportSymbol,
        register: F,
        addr: u32,
    ) -> bool {
        &&& after.name == self.name
        &&& after.builtin == self.builtin
        &&& if self.dll.recorded(sym) is Some {
            addr == self.dll.recorded(sym).unwrap() && after.dll == self.dll
        } else if self.builtin is None {
            addr == 0 && after.dll == self.dll
        } else {
            &&& after.dll.records(self.dll, sym, addr)
            &&& exists|arg: Result<&Shim, String>|
                self.asks(*self.builtin.unwrap(), sym, arg) && call_ensures(register, (arg,), addr)
        }
    }

    /// The address that the module's own export tables hold for `sym`.
    pub fn resolve_from_pe(&self, sym: &ImportSymbol) -> (addr: Option<u32>)
        ensures
            addr == self.dll.recorded(*sym),
    {
        match sym {
            ImportSymbol::Name(name) => self.dll.names.get(name),
            ImportSymbol::Ordinal(ord) => match self.dll.ordinals.get(ord) {
                Some(addr) => Some(*addr),
                None => None,
            },
        }
    }

    /// Resolves `sym` against the native implementation, if the module has
    /// one: `register` is handed the native function, or the name of the
    /// missing one, and the address that it returns is recorded for `sym` and
    /// returned.
    pub fn resolve_from_builtin<F: FnOnce(Result<&Shim, String>) -> u32>(
        &mut self,
        sym: &ImportSymbol,
        register: F,
    ) -> (addr: Option<u32>)
        requires
            forall|arg: Result<&Shim, String>| call_requires(register, (arg,)),
        ensures
            final(self).name == old(self).name,
            final(self).builtin == old(self).builtin,
            old(self).builtin is None ==> addr is None && final(self).dll == old(self).dll,
            old(self).builtin is Some ==> {
                &&& addr is Some
                &&& final(self).dll.records(old(self).dll, *sym, addr.unwrap())
                &&& exists|arg: Result<&Shim, String>|
                    old(self).asks(*old(self).builtin.unwrap(), *sym, arg) && call_ensures(
                        register,
                        (arg,),
                        addr.unwrap(),
                    )
            },
    {
        let addr: u32 = match self.builtin {
            None => {
                return None;
            },
            Some(builtin) => {
                let k = builtin.find(sym);
                if k < builtin.exports.len() {
                    let arg: Result<&Shim, String> = Ok(&builtin.exports[k].shim);
                    let addr: u32 = register(arg);
                    assert(old(self).asks(*old(self).builtin.unwrap(), *sym, arg));
                    addr
                } else {
                    let mut name = self.name.clone();
                    name.append(":");
                    name.append(sym.text().as_str());
                    proof {
                        reveal_strlit(":");
                        assert(name@ =~= missing_name(self.name@, *sym));
                    }
                    let ghost arg: Result<&Shim, String> = Err(name);
                    let addr: u32 = register(Err(name));
                    assert(old(self).asks(*old(self).builtin.unwrap(), *sym, arg));
                    addr
                }
            },
        };
        match sym {
            ImportSymbol::Name(name) => {
                self.dll.names.insert(name.clone(), addr);
            },
            ImportSymbol::Ordinal(ord) => {
                self.dll.ordinals.insert(*ord, addr);
            },
        }
        Some(addr)
    }

    /// Resolves `sym` to an address that guest code can call: the address that
    /// the module's own export tables hold, else the one that `register`
    /// gives for the native implementation, else 0.
    pub fn resolve<F: FnOnce(Result<&Shim, String>) -> u32>(
        &mut self,
        sym: ImportSymbol,
        register: F,
    ) -> (addr: u32)
        requires
            forall|arg: Result<&Shim, String>| call_requires(register, (arg,)),
        ensures
            old(self).resolves(*final(self), sym, register, addr),
    {
        if let Some(addr) = self.resolve_from_pe(&sym) {
            return addr;
        }
        if let Some(addr) = self.resolve_from_builtin(&sym, register) {
            return addr;
        }
        0
    }
}

/// Every byte is an ASCII character.
pub open spec fn ascii(bytes: Seq<u8>) -> bool {
    forall|i: int| 0 <= i < bytes.len() ==> #[trigger] bytes[i] < 128
}

/// The characters that ASCII bytes stand for.
pub open spec fn text_of(bytes: Seq<u8>) -> Seq<char> {
    bytes.map_values(|b: u8| b as char)
}

/// `String::from_utf8` of the standard library, on bytes that are all ASCII.
/// Such bytes are valid UTF-8, and each is one character with the byte's
/// value: the text has one character for each byte, in the same order.
#[verifier::external_body]
fn ascii_text(bytes: Vec<u8>) -> (text: String)
    requires
        ascii(bytes@),
    ensures
        text@ == text_of(bytes@),
{
    String::from_utf8(bytes).unwrap_or_default()
}

/// The argument of a lookup by guest code: a 32-bit value that is a number if
/// its high half is zero, and the address of a name otherwise.
pub struct GetProcAddressArg(pub ImportSymbol);

impl GetProcAddressArg {
    /// Reads the argument from the guest stack at `sp`.
    pub fn from_stack(mem: &Mem, sp: u32) -> (arg: GetProcAddressArg)
        requires
            mem.wf(),
            mem.contains(sp as int, 4),
            mem.word(sp as int) >= 0x1_0000 ==> mem.terminated(mem.word(sp as int) as int) && ascii(
                mem.cstr(mem.word(sp as int) as int),
            ),
        ensures
            mem.word(sp as int) < 0x1_0000 ==> arg.0 == ImportSymbol::Ordinal(mem.word(sp as int)),
            mem.word(sp as int) >= 0x1_0000 ==> arg.0 is Name && arg.0->Name_0@ == text_of(
                mem.cstr(mem.word(sp as int) as int),
            ),
    {
        let proc_name: u32 = mem.get_u32(sp);
        if proc_name < 0x1_0000 {
            GetProcAddressArg(ImportSymbol::Ordinal(proc_name))
        } else {
            match mem.slicez(proc_name) {
                Some(bytes) => GetProcAddressArg(ImportSymbol::Name(ascii_text(bytes))),
                None => vstd::pervasive::unreached(),
            }
        }
    }
}

} // verus!
