//! Small kernel utilities: the boot banner, the stack self-test, and a
//! report on the current process.

use vstd::prelude::*;

use crate::proc::ProcessManager;
use crate::strutil::ascii_string;

verus! {

/// The banner printed at boot.
pub fn get_ascii_header() -> (r: &'static str) {
    "YatSenOS"
}

/// Touches a sizable stretch of stack-like storage to prove the memory is
/// writable and reads back what was written.
pub fn grow_stack()
{
    let size: usize = 4096;
    let step: usize = 64;
    let mut array: Vec<u64> = Vec::new();
    let mut i: usize = 0;
    while i < size
        invariant
            i <= size,
            array@.len() == i,
        decreases size - i,
    {
        array.push(0);
        i = i + 1;
    }
    let mut j: usize = 0;
    while j < size
        invariant
            j <= size,
            array@.len() == size,
            forall|k: int| 0 <= k < j && k % step as int == 0 ==> array@[k] == k,
            size == 4096 && step == 64,
        decreases size - j,
    {
        if j % step == 0 {
            array.set(j, j as u64);
        }
        j = j + 1;
    }
    let mut l: usize = 0;
    while l < size
        invariant
            l <= size,
            array@.len() == size,
            forall|k: int| 0 <= k < size && k % step as int == 0 ==> array@[k] == k,
            size == 4096 && step == 64,
        decreases size - l,
    {
        if l % step == 0 {
            let v = array[l];
            assert(v == l as u64);
        }
        l = l + 1;
    }
}

/// A short report on the current process: its id and status.
pub fn current_proc_info(m: &ProcessManager) -> (r: String)
    requires
        m.wf(),
{
    let pid = m.get_pid();
    let mut out: Vec<u8> = Vec::new();
    out.push(0x23);
    let mut digits: Vec<u8> = Vec::new();
    let mut v: u64 = pid as u64;
    if v == 0 {
        digits.push(0x30);
    }
    while v > 0
        invariant
            digits@.len() <= 20,
        decreases v,
    {
        if digits.len() < 20 {
            digits.push(0x30 + (v % 10) as u8);
        }
        v = v / 10;
    }
    let mut d = digits.len();
    while d > 0
        invariant
            d <= digits@.len(),
        decreases d,
    {
        out.push(digits[d - 1]);
        d = d - 1;
    }
    match m.get_status(pid) {
        Some(crate::proc::ProgramStatus::Running) => {
            out.push(0x20);
            out.push(0x52);
        },
        _ => {
            out.push(0x20);
            out.push(0x3F);
        },
    }
    ascii_string(&out)
}

} // verus!
