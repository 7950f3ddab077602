//! Classification of an address-sized word: native handle, proxy id or heap
//! address.
//!
//! Native handles (timers, sockets, fetch objects) and proxies are small fake
//! pointers below `HANDLE_BAND_END`; only an address at or above it can be a
//! heap allocation.

use vstd::prelude::*;

verus! {

/// First address of the band that holds proxy ids.
pub const PROXY_BAND_START: usize = 0xF0000;

/// Exclusive end of the band of handles and proxy ids.
pub const HANDLE_BAND_END: usize = 0x100000;

pub open spec fn small_handle(addr: usize) -> bool {
    0 < addr < HANDLE_BAND_END
}

pub open spec fn above_handle_band(addr: usize) -> bool {
    HANDLE_BAND_END <= addr
}

pub open spec fn proxy_id_band(addr: usize) -> bool {
    PROXY_BAND_START <= addr < HANDLE_BAND_END
}

pub fn is_small_handle(addr: usize) -> (r: bool)
    ensures
        r == small_handle(addr),
{
    0 < addr && addr < HANDLE_BAND_END
}

pub fn is_above_handle_band(addr: usize) -> (r: bool)
    ensures
        r == above_handle_band(addr),
{
    addr >= HANDLE_BAND_END
}

pub fn is_proxy_id_band(addr: usize) -> (r: bool)
    ensures
        r == proxy_id_band(addr),
{
    PROXY_BAND_START <= addr && addr < HANDLE_BAND_END
}

/// Every word but zero is a handle or lies above the handles, never both, and
/// the ids of proxies are the uppermost handles.
pub proof fn addresses_fall_into_bands(addr: usize)
    ensures
        small_handle(addr) <==> 1 <= addr <= 0xF_FFFF,
        above_handle_band(addr) <==> addr > 0xF_FFFF,
        addr != 0 ==> small_handle(addr) != above_handle_band(addr),
        proxy_id_band(addr) ==> small_handle(addr) && !above_handle_band(addr),
        small_handle(addr) && !proxy_id_band(addr) <==> 1 <= addr <= 0xE_FFFF,
{
}

} // verus!
