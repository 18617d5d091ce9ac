//! The Windows 7 stand-ins: which stand-in answers a delay-loaded import
//! that Windows cannot resolve, and the waiting rule of the address-wait
//! stand-in.

use vstd::prelude::*;
use crate::pe::ascii_lower;
use crate::text::utf8;

verus! {

/// The stand-ins the album carries for functions missing on Windows 7.
#[derive(Clone, Copy, Debug, PartialEq, Eq, Structural)]
pub enum Shim {
    ProcessPrng,
    WaitOnAddress,
    WakeByAddressAll,
    WakeByAddressSingle,
    RoOriginateErrorW,
    CoTaskMemFree,
    CoCreateFreeThreadedMarshaler,
    ConfigureNarrowArgv,
    InitializeNarrowEnvironment,
    GetInitialNarrowEnvironment,
    RegisterThreadLocalExeAtexitCallback,
    ConfigureWideArgv,
    InitializeWideEnvironment,
    GetInitialWideEnvironment,
}

/// Whether the DLL name `name` ends with `expected` (given in lower case),
/// ignoring ASCII case.
pub open spec fn dll_name_is(name: Seq<u8>, expected: Seq<u8>) -> bool {
    name.len() >= expected.len() && forall|i: int|
        0 <= i < expected.len() ==> #[trigger] ascii_lower(name[name.len() - expected.len() + i]) == expected[i]
}

pub fn dll_name_matches(name: &[u8], expected: &[u8]) -> (r: bool)
    ensures
        r == dll_name_is(name@, expected@),
{
    if name.len() < expected.len() {
        return false;
    }
    let n = name.len();
    let off = n - expected.len();
    let mut i: usize = 0;
    while i < expected.len()
        invariant
            n == name@.len(),
            n >= expected@.len(),
            off == name@.len() - expected@.len(),
            i <= expected@.len(),
            forall|j: int| 0 <= j < i ==> #[trigger] ascii_lower(name@[off + j]) == expected@[j],
        decreases expected@.len() - i,
    {
        let b = name[off + i];
        let l = if b >= 65 && b <= 90 {
            b + 32
        } else {
            b
        };
        assert(l == ascii_lower(b));
        if l != expected[i] {
            return false;
        }
        i += 1;
    }
    true
}

fn same(a: &[u8], b: &[u8]) -> (r: bool)
    ensures
        r == (a@ == b@),
{
    crate::text::same_bytes(a, b)
}

/// The stand-in for function `proc_name` (or ordinal `ordinal`, where it is
/// imported by number) of `dll`, if the album has one.
pub open spec fn shim_for(dll: Seq<u8>, by_name: bool, ordinal: u32, proc_name: Seq<u8>) -> Option<Shim> {
    let named = |lit: Seq<u8>| by_name && proc_name == lit;
    if dll_name_is(dll, utf8("bcryptprimitives.dll"@)) && ((!by_name && ordinal
        == 1) || named(utf8("ProcessPrng"@))) {
        Some(Shim::ProcessPrng)
    } else if dll_name_is(dll, utf8("api-ms-win-core-synch-l1-2-0.dll"@)) && named(
        utf8("WaitOnAddress"@),
    ) {
        Some(Shim::WaitOnAddress)
    } else if dll_name_is(dll, utf8("api-ms-win-core-synch-l1-2-0.dll"@)) && named(
        utf8("WakeByAddressAll"@),
    ) {
        Some(Shim::WakeByAddressAll)
    } else if dll_name_is(dll, utf8("api-ms-win-core-synch-l1-2-0.dll"@)) && named(
        utf8("WakeByAddressSingle"@),
    ) {
        Some(Shim::WakeByAddressSingle)
    } else if dll_name_is(dll, utf8("api-ms-win-core-winrt-error-l1-1-0.dll"@))
        && named(utf8("RoOriginateErrorW"@)) {
        Some(Shim::RoOriginateErrorW)
    } else if dll_name_is(dll, utf8("combase.dll"@)) && named(
        utf8("CoTaskMemFree"@),
    ) {
        Some(Shim::CoTaskMemFree)
    } else if dll_name_is(dll, utf8("combase.dll"@)) && named(
        utf8("CoCreateFreeThreadedMarshaler"@),
    ) {
        Some(Shim::CoCreateFreeThreadedMarshaler)
    } else if dll_name_is(dll, utf8("api-ms-win-crt-runtime-l1-1-0.dll"@)) {
        if named(utf8("_configure_narrow_argv"@)) {
            Some(Shim::ConfigureNarrowArgv)
        } else if named(utf8("_initialize_narrow_environment"@)) {
            Some(Shim::InitializeNarrowEnvironment)
        } else if named(utf8("_get_initial_narrow_environment"@)) {
            Some(Shim::GetInitialNarrowEnvironment)
        } else if named(utf8("_register_thread_local_exe_atexit_callback"@)) {
            Some(Shim::RegisterThreadLocalExeAtexitCallback)
        } else if named(utf8("_configure_wide_argv"@)) {
            Some(Shim::ConfigureWideArgv)
        } else if named(utf8("_initialize_wide_environment"@)) {
            Some(Shim::InitializeWideEnvironment)
        } else if named(utf8("_get_initial_wide_environment"@)) {
            Some(Shim::GetInitialWideEnvironment)
        } else {
            None
        }
    } else {
        None
    }
}

fn named(by_name: bool, proc_name: &[u8], lit: &str) -> (r: bool)
    ensures
        r == (by_name && proc_name@ == utf8(lit@)),
{
    by_name && same(proc_name, lit.as_bytes())
}

fn dll_is(dll: &[u8], lit: &str) -> (r: bool)
    ensures
        r == dll_name_is(dll@, utf8(lit@)),
{
    dll_name_matches(dll, lit.as_bytes())
}

/// The stand-in for an import Windows could not resolve (see [`shim_for`]);
/// `proc_name` is the imported name, read only for imports by name.
pub fn shim_lookup(dll: &[u8], by_name: bool, ordinal: u32, proc_name: &[u8]) -> (r: Option<Shim>)
    ensures
        r == shim_for(dll@, by_name, ordinal, proc_name@),
{
    if dll_is(dll, "bcryptprimitives.dll") && ((!by_name && ordinal == 1) || named(by_name, proc_name, "ProcessPrng")) {
        return Some(Shim::ProcessPrng);
    }
    let synch = dll_is(dll, "api-ms-win-core-synch-l1-2-0.dll");
    if synch && named(by_name, proc_name, "WaitOnAddress") {
        return Some(Shim::WaitOnAddress);
    }
    if synch && named(by_name, proc_name, "WakeByAddressAll") {
        return Some(Shim::WakeByAddressAll);
    }
    if synch && named(by_name, proc_name, "WakeByAddressSingle") {
        return Some(Shim::WakeByAddressSingle);
    }
    if dll_is(dll, "api-ms-win-core-winrt-error-l1-1-0.dll") && named(by_name, proc_name, "RoOriginateErrorW") {
        return Some(Shim::RoOriginateErrorW);
    }
    let combase = dll_is(dll, "combase.dll");
    if combase && named(by_name, proc_name, "CoTaskMemFree") {
        return Some(Shim::CoTaskMemFree);
    }
    if combase && named(by_name, proc_name, "CoCreateFreeThreadedMarshaler") {
        return Some(Shim::CoCreateFreeThreadedMarshaler);
    }
    if dll_is(dll, "api-ms-win-crt-runtime-l1-1-0.dll") {
        if named(by_name, proc_name, "_configure_narrow_argv") {
            return Some(Shim::ConfigureNarrowArgv);
        }
        if named(by_name, proc_name, "_initialize_narrow_environment") {
            return Some(Shim::InitializeNarrowEnvironment);
        }
        if named(by_name, proc_name, "_get_initial_narrow_environment") {
            return Some(Shim::GetInitialNarrowEnvironment);
        }
        if named(by_name, proc_name, "_register_thread_local_exe_atexit_callback") {
            return Some(Shim::RegisterThreadLocalExeAtexitCallback);
        }
        if named(by_name, proc_name, "_configure_wide_argv") {
            return Some(Shim::ConfigureWideArgv);
        }
        if named(by_name, proc_name, "_initialize_wide_environment") {
            return Some(Shim::InitializeWideEnvironment);
        }
        if named(by_name, proc_name, "_get_initial_wide_environment") {
            return Some(Shim::GetInitialWideEnvironment);
        }
    }
    None
}

/// The delay-load helper's calls to the failure hook: a missing DLL gets a
/// stand-in module handle, so that the lookup of each function fails and
/// comes back here, where it gets its stand-in.
pub enum HookAnswer {
    FakeModule,
    Function(Option<Shim>),
    Nothing,
}

pub open spec fn hook_answer(notify: u32, dll: Seq<u8>, by_name: bool, ordinal: u32, proc_name: Seq<u8>) -> HookAnswer {
    if notify == 3 {
        HookAnswer::FakeModule
    } else if notify == 4 {
        HookAnswer::Function(shim_for(dll, by_name, ordinal, proc_name))
    } else {
        HookAnswer::Nothing
    }
}

pub fn failure_hook(notify: u32, dll: &[u8], by_name: bool, ordinal: u32, proc_name: &[u8]) -> (r: HookAnswer)
    ensures
        r == hook_answer(notify, dll@, by_name, ordinal, proc_name@),
{
    if notify == 3 {
        HookAnswer::FakeModule
    } else if notify == 4 {
        HookAnswer::Function(shim_lookup(dll, by_name, ordinal, proc_name))
    } else {
        HookAnswer::Nothing
    }
}

// ── Waiting on an address ──────────────────────────────────────────────────

/// When a wait of `ms` milliseconds begun at tick `now` gives up: never for
/// the infinite wait (`u32::MAX`).
pub open spec fn wait_deadline_of(now: u32, ms: u32) -> u64 {
    if ms == u32::MAX {
        u64::MAX
    } else {
        (now + ms) as u64
    }
}

pub fn wait_deadline(now: u32, ms: u32) -> (r: u64)
    ensures
        r == wait_deadline_of(now, ms),
{
    if ms == u32::MAX {
        u64::MAX
    } else {
        now as u64 + ms as u64
    }
}

/// One look at the watched value: done where the value size is not 1, 2, 4
/// or 8 bytes or the value changed; timed out once the tick reaches the
/// deadline; else sleep a millisecond and look again.
pub enum WaitStep {
    Woken,
    TimedOut,
    Sleep,
}

pub open spec fn wait_step_of(size: usize, changed: bool, tick: u32, deadline: u64) -> WaitStep {
    if !(size == 1 || size == 2 || size == 4 || size == 8) || changed {
        WaitStep::Woken
    } else if tick as u64 >= deadline {
        WaitStep::TimedOut
    } else {
        WaitStep::Sleep
    }
}

pub fn wait_step(size: usize, changed: bool, tick: u32, deadline: u64) -> (r: WaitStep)
    ensures
        r == wait_step_of(size, changed, tick, deadline),
{
    if !(size == 1 || size == 2 || size == 4 || size == 8) || changed {
        WaitStep::Woken
    } else if tick as u64 >= deadline {
        WaitStep::TimedOut
    } else {
        WaitStep::Sleep
    }
}

} // verus!
