//! Decoding the window-manager properties that identify the focused application.
use vstd::prelude::*;
use byteorder::ByteOrder;

verus! {

/// The window id that means "no window".
pub const WINDOW_NONE: u32 = 0;

/// Why the focused application could not be identified from a property value.
#[derive(Debug, PartialEq, Eq, Structural)]
pub enum FocusError {
    /// The root window has no active-window property.
    NoActiveWindow,
    /// The active-window property names no window.
    NoWindowFocused,
    /// The focused window has no process-id property.
    NoProcessId,
    /// A property value is not one 32-bit item.
    Malformed,
}

/// The unsigned number stored least significant byte first in `b[0..4]`.
pub open spec fn le_u32(b: Seq<u8>) -> int {
    b[0] as int + 256 * (b[1] as int) + 65536 * (b[2] as int) + 16777216 * (b[3] as int)
}

/// Relies on byteorder's `LittleEndian::read_u32`: the first four bytes, least
/// significant first; it panics on fewer than four.
#[verifier::external_body]
fn read_u32_le(b: &[u8]) -> (r: u32)
    requires
        b@.len() >= 4,
    ensures
        r as int == le_u32(b@),
{
    byteorder::LittleEndian::read_u32(b)
}

/// The focused window named by the value of the root window's active-window property.
pub fn active_window(value: &[u8]) -> (r: Result<u32, FocusError>)
    ensures
        value@.len() == 0 ==> r == Err::<u32, FocusError>(FocusError::NoActiveWindow),
        value@.len() != 0 && value@.len() != 4 ==> r == Err::<u32, FocusError>(FocusError::Malformed),
        value@.len() == 4 && le_u32(value@) == WINDOW_NONE ==> r == Err::<u32, FocusError>(
            FocusError::NoWindowFocused,
        ),
        value@.len() == 4 && le_u32(value@) != WINDOW_NONE ==> (r matches Ok(w) && w as int
            == le_u32(value@)),
{
    if value.len() == 0 {
        return Err(FocusError::NoActiveWindow);
    }
    if value.len() != 4 {
        return Err(FocusError::Malformed);
    }
    let window = read_u32_le(value);
    if window == WINDOW_NONE {
        Err(FocusError::NoWindowFocused)
    } else {
        Ok(window)
    }
}

/// The process id named by the value of a window's process-id property.
pub fn process_id(value: &[u8]) -> (r: Result<u32, FocusError>)
    ensures
        value@.len() == 0 ==> r == Err::<u32, FocusError>(FocusError::NoProcessId),
        value@.len() != 0 && value@.len() != 4 ==> r == Err::<u32, FocusError>(FocusError::Malformed),
        value@.len() == 4 ==> (r matches Ok(p) && p as int == le_u32(value@)),
{
    if value.len() == 0 {
        return Err(FocusError::NoProcessId);
    }
    if value.len() != 4 {
        return Err(FocusError::Malformed);
    }
    Ok(read_u32_le(value))
}

/// The bytes of a window-class property value up to its first NUL byte.
pub fn class_name(value: &[u8]) -> (r: Vec<u8>)
    ensures
        r@.len() <= value@.len(),
        r@ == value@.take(r@.len() as int),
        forall|i: int| 0 <= i < r@.len() ==> r@[i] != 0,
        r@.len() < value@.len() ==> value@[r@.len() as int] == 0,
{
    let mut out: Vec<u8> = Vec::new();
    let mut i: usize = 0;
    while i < value.len()
        invariant
            i <= value@.len(),
            out@ == value@.take(i as int),
            forall|j: int| 0 <= j < i ==> value@[j] != 0,
        decreases value@.len() - i,
    {
        if value[i] == 0 {
            return out;
        }
        out.push(value[i]);
        proof {
            assert(value@.take(i + 1) =~= value@.take(i as int).push(value@[i as int]));
        }
        i = i + 1;
    }
    out
}

} // verus!
