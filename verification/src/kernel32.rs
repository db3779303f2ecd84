//! The list of loaded modules, and the lookups that guest code makes in it.

use crate::dll::{
    BuiltinDLL, GetProcAddressArg, ImportSymbol, PeDll, DLL, HMODULE,
};
use crate::shims::Shim;
use vstd::prelude::*;
use vstd::string::StrSliceExecFns;

verus! {

/// The modules that are loaded, in the order in which they were loaded.
pub struct Modules {
    /// Address at which the program itself is loaded.
    pub image_base: u32,
    pub dlls: Vec<DLL>,
}

/// `c` in lower case, as far as ASCII goes.
pub open spec fn lower(c: char) -> char {
    if 'A' as u32 <= c as u32 && c as u32 <= 'Z' as u32 {
        ((c as u32 + 32) as u8) as char
    } else {
        c
    }
}

/// `s` with its ASCII letters in lower case.
pub open spec fn lowercase(s: Seq<char>) -> Seq<char> {
    s.map_values(|c: char| lower(c))
}

/// `str::to_ascii_lowercase` of the standard library: a copy of the text in
/// which the letters A to Z are replaced by a to z and every other character
/// is kept.
#[verifier::external_body]
fn ascii_lowercase(s: &String) -> (low: String)
    ensures
        low@ == lowercase(s@),
{
    s.to_ascii_lowercase()
}

/// The name stands for a set of modules rather than for one: it starts with
/// `api-`.
pub open spec fn is_api_set(name: Seq<char>) -> bool {
    name.len() >= 4 && name[0] == 'a' && name[1] == 'p' && name[2] == 'i' && name[3] == '-'
}

/// Whether `name` starts with `api-`.
pub fn starts_with_api(name: &String) -> (yes: bool)
    ensures
        yes == is_api_set(name@),
{
    let s = name.as_str();
    s.unicode_len() >= 4 && s.get_char(0) == 'a' && s.get_char(1) == 'p' && s.get_char(2) == 'i'
        && s.get_char(3) == '-'
}

/// Index of the first of `dlls` that is called `name`; their number when
/// there is none.
pub open spec fn first_named(dlls: Seq<DLL>, name: Seq<char>) -> int
    decreases dlls.len(),
{
    if dlls.len() == 0 || dlls[0].name@ == name {
        0
    } else {
        1 + first_named(dlls.drop_first(), name)
    }
}

/// Index of the first of `builtins` whose file is called `name`; their number
/// when there is none.
pub open spec fn first_file(builtins: Seq<BuiltinDLL>, name: Seq<char>) -> int
    decreases builtins.len(),
{
    if builtins.len() == 0 || builtins[0].file_name@ == name {
        0
    } else {
        1 + first_file(builtins.drop_first(), name)
    }
}

/// The number of the handle for the module called `name`: its index plus
/// one, or 0 when no module has that name.
pub open spec fn handle_of(dlls: Seq<DLL>, name: Seq<char>) -> int {
    let k = first_named(dlls, name);
    if k < dlls.len() {
        k + 1
    } else {
        0
    }
}

/// The first module of that name, with none before it, is what `first_named`
/// finds.
pub proof fn lemma_first_named_is(dlls: Seq<DLL>, name: Seq<char>, k: int)
    requires
        0 <= k <= dlls.len(),
        forall|j: int| 0 <= j < k ==> (#[trigger] dlls[j]).name@ != name,
        k < dlls.len() ==> dlls[k].name@ == name,
    ensures
        first_named(dlls, name) == k,
    decreases dlls.len(),
{
    if dlls.len() > 0 && k > 0 {
        let rest = dlls.drop_first();
        assert(dlls[0].name@ != name);
        assert forall|j: int| 0 <= j < k - 1 implies (#[trigger] rest[j]).name@ != name by {
            assert(rest[j] == dlls[j + 1]);
        }
        lemma_first_named_is(rest, name, k - 1);
    }
}

/// The first builtin of that file name, with none before it, is what
/// `first_file` finds.
pub proof fn lemma_first_file_is(builtins: Seq<BuiltinDLL>, name: Seq<char>, k: int)
    requires
        0 <= k <= builtins.len(),
        forall|j: int| 0 <= j < k ==> (#[trigger] builtins[j]).file_name@ != name,
        k < builtins.len() ==> builtins[k].file_name@ == name,
    ensures
        first_file(builtins, name) == k,
    decreases builtins.len(),
{
    if builtins.len() > 0 && k > 0 {
        let rest = builtins.drop_first();
        assert(builtins[0].file_name@ != name);
        assert forall|j: int| 0 <= j < k - 1 implies (#[trigger] rest[j]).file_name@ != name by {
            assert(rest[j] == builtins[j + 1]);
        }
        lemma_first_file_is(rest, name, k - 1);
    }
}

/// What is to be done about a module that is to be loaded.
pub enum Load {
    /// Nothing more: this is the module's handle, null if there is no such
    /// module.
    Done(HMODULE),
    /// The file of this name must be read and handed to `add_loaded`.
    ReadFile(String),
}

impl Modules {
    /// No modules, for a program loaded at `image_base`.
    pub fn new(image_base: u32) -> (state: Modules)
        ensures
            state.image_base == image_base,
            state.dlls@.len() == 0,
    {
        Modules { image_base, dlls: Vec::new() }
    }

    /// Index of the first module called `name`; the number of modules when
    /// there is none.
    pub fn position(&self, name: &String) -> (k: usize)
        ensures
            k == first_named(self.dlls@, name@),
            k <= self.dlls@.len(),
    {
        let mut k: usize = 0;
        while k < self.dlls.len()
            invariant
                0 <= k <= self.dlls@.len(),
                forall|j: int| 0 <= j < k ==> (#[trigger] self.dlls@[j]).name@ != name@,
            decreases self.dlls@.len() - k,
        {
            if self.dlls[k].name == *name {
                proof {
                    lemma_first_named_is(self.dlls@, name@, k as int);
                }
                return k;
            }
            k = k + 1;
        }
        proof {
            lemma_first_named_is(self.dlls@, name@, k as int);
        }
        k
    }

    /// Adds a module that was read from a file and returns its handle.
    pub fn add_loaded(&mut self, name: String, dll: PeDll) -> (handle: HMODULE)
        requires
            old(self).dlls@.len() + 1 < u32::MAX,
        ensures
            final(self).image_base == old(self).image_base,
            final(self).dlls@ == old(self).dlls@.push(DLL { name, dll, builtin: None }),
            handle.raw == final(self).dlls@.len(),
    {
        self.dlls.push(DLL { name, dll, builtin: None });
        HMODULE::from_dll_index(self.dlls.len() - 1)
    }
}

/// Index of the first builtin whose file is called `name`; the number of
/// builtins when there is none.
pub fn find_builtin(builtins: &Vec<BuiltinDLL>, name: &String) -> (k: usize)
    ensures
        k == first_file(builtins@, name@),
        k <= builtins@.len(),
{
    let mut k: usize = 0;
    while k < builtins.len()
        invariant
            0 <= k <= builtins@.len(),
            forall|j: int| 0 <= j < k ==> (#[trigger] builtins@[j]).file_name@ != name@,
        decreases builtins@.len() - k,
    {
        if builtins[k].file_name == *name {
            proof {
                lemma_first_file_is(builtins@, name@, k as int);
            }
            return k;
        }
        k = k + 1;
    }
    proof {
        lemma_first_file_is(builtins@, name@, k as int);
    }
    k
}

/// The number of the handle for the module called `name`, whatever the case
/// of its letters: that of the program itself where no name is given, 0 where
/// no module has that name.
pub open spec fn module_handle(state: Modules, name: Option<&String>) -> int {
    match name {
        None => state.image_base as int,
        Some(name) => handle_of(state.dlls@, lowercase(name@)),
    }
}

/// The handle of the module called `lpModuleName`, whatever the case of its
/// letters; that of the program itself where no name is given; null where no
/// module has that name.
#[allow(non_snake_case)]
pub fn GetModuleHandleA(state: &Modules, lpModuleName: Option<&String>) -> (handle: HMODULE)
    requires
        state.dlls@.len() < u32::MAX,
    ensures
        handle.raw == module_handle(*state, lpModuleName),
{
    let name = match lpModuleName {
        None => {
            return HMODULE::from_raw(state.image_base);
        },
        Some(name) => ascii_lowercase(name),
    };
    let index = state.position(&name);
    if index < state.dlls.len() {
        return HMODULE::from_dll_index(index);
    }
    HMODULE::null()
}

/// Looks the module called `lpModuleName` up as `GetModuleHandleA` does,
/// stores its handle in `hModule` where one is given, and says whether there
/// is such a module. No flags are supported.
#[allow(non_snake_case)]
pub fn GetModuleHandleExW(
    state: &Modules,
    dwFlags: u32,
    lpModuleName: Option<&String>,
    hModule: Option<&mut HMODULE>,
) -> (found: bool)
    requires
        dwFlags == 0,
        state.dlls@.len() < u32::MAX,
    ensures
        found == (module_handle(*state, lpModuleName) != 0),
        hModule matches Some(out) ==> final(out).raw == module_handle(*state, lpModuleName),
{
    let hMod = GetModuleHandleA(state, lpModuleName);
    let found = !hMod.is_null();
    match hModule {
        Some(out) => {
            *out = hMod;
        },
        None => {},
    }
    found
}

/// The address of what `lpProcName` names in the module `hModule`: what
/// resolving it in that module gives, or 0 where there is no such module.
#[allow(non_snake_case)]
pub fn GetProcAddress<F: FnOnce(Result<&Shim, String>) -> u32>(
    state: &mut Modules,
    hModule: HMODULE,
    lpProcName: GetProcAddressArg,
    register: F,
) -> (addr: u32)
    requires
        hModule.raw != 0,
        forall|arg: Result<&Shim, String>| call_requires(register, (arg,)),
    ensures
        final(state).image_base == old(state).image_base,
        final(state).dlls@.len() == old(state).dlls@.len(),
        forall|j: int|
            0 <= j < old(state).dlls@.len() && j != hModule.raw - 1 ==> final(state).dlls@[j]
                == old(state).dlls@[j],
        hModule.raw - 1 >= old(state).dlls@.len() ==> addr == 0,
        hModule.raw - 1 < old(state).dlls@.len() ==> old(state).dlls@[hModule.raw - 1].resolves(
            final(state).dlls@[hModule.raw - 1],
            lpProcName.0,
            register,
            addr,
        ),
{
    let index: usize = match hModule.to_dll_index() {
        Some(index) => index,
        None => vstd::pervasive::unreached(),
    };
    if index < state.dlls.len() {
        let dll = &mut state.dlls[index];
        return dll.resolve(lpProcName.0, register);
    }
    0
}

/// What loading the module called `target` comes to once it is known not to
/// be loaded: a builtin of that file name is added to the modules and its
/// handle returned; any other module has to be read from its file.
pub open spec fn loads(
    before: Seq<DLL>,
    after: Seq<DLL>,
    builtins: &'static Vec<BuiltinDLL>,
    target: Seq<char>,
    load: Load,
) -> bool {
    let b = first_file(builtins@, target);
    if b < builtins@.len() {
        &&& after.len() == before.len() + 1
        &&& after.subrange(0, before.len() as int) == before
        &&& after.last().name@ == target
        &&& after.last().builtin == Some(&builtins@[b])
        &&& after.last().dll.names@ == Map::<Seq<char>, u32>::empty()
        &&& after.last().dll.ordinals@ == Map::<u32, u32>::empty()
        &&& after.last().dll.entry_point == 0
        &&& load matches Load::Done(h) && h.raw == after.len()
    } else {
        &&& after == before
        &&& load matches Load::ReadFile(name) && name@ == target
    }
}

/// Loads the module called `filename`, whatever the case of its letters. A
/// module that is loaded already is not loaded again. A name that stands for
/// a set of modules is first replaced by what `apiset` gives for it; where it
/// gives nothing, there is no such module.
#[allow(non_snake_case)]
pub fn LoadLibraryA<F: FnOnce(&String) -> Option<String>>(
    state: &mut Modules,
    builtins: &'static Vec<BuiltinDLL>,
    filename: Option<&String>,
    apiset: F,
) -> (load: Load)
    requires
        filename is Some,
        old(state).dlls@.len() + 1 < u32::MAX,
        forall|name: &String| call_requires(apiset, (name,)),
    ensures
        final(state).image_base == old(state).image_base,
        ({
            let before = old(state).dlls@;
            let after = final(state).dlls@;
            let name = lowercase(filename.unwrap()@);
            if first_named(before, name) < before.len() {
                &&& after == before
                &&& load matches Load::Done(h) && h.raw == first_named(before, name) + 1
            } else if is_api_set(name) {
                exists|asked: &String, mapped: Option<String>|
                    {
                        &&& asked@ == name
                        &&& call_ensures(apiset, (asked,), mapped)
                        &&& match mapped {
                            Some(target) => loads(before, after, builtins, target@, load),
                            None => after == before && (load matches Load::Done(h) && h.raw == 0),
                        }
                    }
            } else {
                loads(before, after, builtins, name, load)
            }
        }),
{
    let mut filename = ascii_lowercase(filename.unwrap());
    let index = state.position(&filename);
    if index < state.dlls.len() {
        return Load::Done(HMODULE::from_dll_index(index));
    }
    let ghost asked = filename;
    let ghost mut mapped: Option<String> = None;
    if starts_with_api(&filename) {
        let found = apiset(&filename);
        proof {
            mapped = found;
        }
        match found {
            Some(name) => {
                filename = name;
            },
            None => {
                return Load::Done(HMODULE::null());
            },
        }
    }
    let b = find_builtin(builtins, &filename);
    if b < builtins.len() {
        let ghost before = state.dlls@;
        state.dlls.push(DLL { name: filename, dll: PeDll::new(), builtin: Some(&builtins[b]) });
        assert(state.dlls@.subrange(0, before.len() as int) =~= before);
        return Load::Done(HMODULE::from_dll_index(state.dlls.len() - 1));
    }
    Load::ReadFile(filename)
}

} // verus!
