//! The syscall boundary: the fixed numeric ABI and the dispatcher that
//! turns a saved user context into calls on the process manager. The
//! runtime around the library validates user pointers and hands the bytes
//! behind them in as plain values.

use vstd::prelude::*;

use crate::blockdev::BlockDevice;
use crate::fat16::Fat16Impl;
use crate::input::InputBuffer;
use crate::proc::{spec_pid_index, ProcessContext, ProcessManager, KERNEL_PID};
use crate::resource::{FileMeta, Resource, StdIO};

verus! {

/// The syscalls of the ABI.
#[derive(Debug, Clone, Copy, PartialEq, Eq, Structural)]
pub enum Syscall {
    Read,
    Write,
    Open,
    Close,
    ListDir,
    GetPid,
    VFork,
    Spawn,
    Exit,
    WaitPid,
    Kill,
    Sem,
    Brk,
    ListApp,
    Stat,
    Allocate,
    Deallocate,
    Unknown,
}

/// The syscall a register number names; an unassigned number is `Unknown`.
pub fn syscall_from(num: u64) -> (r: Syscall)
    ensures
        r == spec_syscall_from(num),
{
    if num == 0 {
        Syscall::Read
    } else if num == 1 {
        Syscall::Write
    } else if num == 14 {
        Syscall::Open
    } else if num == 15 {
        Syscall::Close
    } else if num == 16 {
        Syscall::ListDir
    } else if num == 39 {
        Syscall::GetPid
    } else if num == 40 {
        Syscall::VFork
    } else if num == 59 {
        Syscall::Spawn
    } else if num == 60 {
        Syscall::Exit
    } else if num == 61 {
        Syscall::WaitPid
    } else if num == 62 {
        Syscall::Kill
    } else if num == 66 {
        Syscall::Sem
    } else if num == 67 {
        Syscall::Brk
    } else if num == 65529 {
        Syscall::ListApp
    } else if num == 65530 {
        Syscall::Stat
    } else if num == 65533 {
        Syscall::Allocate
    } else if num == 65534 {
        Syscall::Deallocate
    } else {
        Syscall::Unknown
    }
}

/// The number-to-syscall table.
pub open spec fn spec_syscall_from(num: u64) -> Syscall {
    if num == 0 {
        Syscall::Read
    } else if num == 1 {
        Syscall::Write
    } else if num == 14 {
        Syscall::Open
    } else if num == 15 {
        Syscall::Close
    } else if num == 16 {
        Syscall::ListDir
    } else if num == 39 {
        Syscall::GetPid
    } else if num == 40 {
        Syscall::VFork
    } else if num == 59 {
        Syscall::Spawn
    } else if num == 60 {
        Syscall::Exit
    } else if num == 61 {
        Syscall::WaitPid
    } else if num == 62 {
        Syscall::Kill
    } else if num == 66 {
        Syscall::Sem
    } else if num == 67 {
        Syscall::Brk
    } else if num == 65529 {
        Syscall::ListApp
    } else if num == 65530 {
        Syscall::Stat
    } else if num == 65533 {
        Syscall::Allocate
    } else if num == 65534 {
        Syscall::Deallocate
    } else {
        Syscall::Unknown
    }
}

/// A decoded syscall: its name and the three argument registers.
#[derive(Debug, Clone, Copy, PartialEq, Eq, Structural)]
pub struct SyscallArgs {
    pub syscall: Syscall,
    pub arg0: u64,
    pub arg1: u64,
    pub arg2: u64,
}

impl SyscallArgs {
    pub fn new(syscall: Syscall, arg0: u64, arg1: u64, arg2: u64) -> (r: SyscallArgs)
        ensures
            r == (SyscallArgs { syscall, arg0, arg1, arg2 }),
    {
        SyscallArgs { syscall, arg0, arg1, arg2 }
    }
}

/// The current process id.
pub fn sys_get_pid(m: &ProcessManager) -> (r: u16)
    ensures
        r == m.spec_current(),
{
    m.get_pid()
}

/// Duplicates the current process; the parent reads the child's id, the
/// child will read zero.
pub fn sys_vfork(m: &mut ProcessManager, ctx: &mut ProcessContext) -> (r: u16)
    requires
        old(m).wf(),
    ensures
        final(m).wf(),
{
    m.vfork(ctx)
}

/// A one-line-per-process summary of the process table.
pub fn list_process(m: &ProcessManager) -> (r: String)
    requires
        m.wf(),
{
    let mut out: Vec<u8> = Vec::new();
    let mut pid: u32 = 0;
    while pid < 0x10000
        invariant
            m.wf(),
        decreases 0x10000 - pid,
    {
        match m.get_status(pid as u16) {
            Some(st) => {
                push_decimal(&mut out, pid as u64);
                out.push(0x20);
                let tag: u8 = match st {
                    crate::proc::ProgramStatus::Running => 0x52,
                    crate::proc::ProgramStatus::Ready => 0x72,
                    crate::proc::ProgramStatus::Blocked => 0x62,
                    crate::proc::ProgramStatus::Dead => 0x64,
                };
                out.push(tag);
                out.push(0x0A);
            },
            None => {},
        }
        pid = pid + 1;
    }
    crate::strutil::ascii_string(&out)
}

/// Appends a number's decimal digits.
fn push_decimal(out: &mut Vec<u8>, v: u64)
    decreases v,
{
    if v >= 10 {
        push_decimal(out, v / 10);
    }
    out.push(0x30 + (v % 10) as u8);
}

/// Opens the file a path names for the current process: a path resolving
/// to a plain file gets a fresh descriptor over its first cluster and
/// size, with the cursor at the start, and the descriptor lands in the
/// result register; anything else — a directory, a missing or bad path, a
/// full descriptor table — reports `u64::MAX`.
pub fn sys_open<T: BlockDevice>(
    m: &mut ProcessManager,
    fs: &Fat16Impl<T>,
    path: &[u8],
    ctx: &mut ProcessContext,
)
    requires
        old(m).wf(),
        fs.wf(),
    ensures
        final(m).wf(),
        final(m).spec_procs() == old(m).spec_procs(),
        final(m).spec_current() == old(m).spec_current(),
        ({
            let comps = crate::fat16::spec_split_path(path@);
            let resolved = fs.spec_resolve(comps, 0, crate::direntry::CLUSTER_ROOT_DIR);
            let is_file = comps.len() > 0 && (resolved matches Ok(Some(ev))
                && ev.attributes & crate::direntry::ATTR_DIRECTORY
                != crate::direntry::ATTR_DIRECTORY && ev.attributes
                & crate::direntry::ATTR_VOLUME_ID != crate::direntry::ATTR_VOLUME_ID);
            if is_file && old(m).spec_current_resources().len() < 250 {
                let ev = resolved->Ok_0->Some_0;
                let rs = old(m).spec_current_resources();
                let rs2 = final(m).spec_current_resources();
                &&& rs2.len() == rs.len() + 1
                &&& rs2.subrange(0, rs.len() as int) == rs
                &&& rs2.last().1 == Resource::File(
                    FileMeta { cluster: ev.cluster, size: ev.size, offset: 0 },
                )
                &&& final(ctx).rax == rs2.last().0 as u64
                &&& final(ctx).rip == old(ctx).rip && final(ctx).rsp == old(ctx).rsp
            } else {
                &&& final(m).spec_current_resources() == old(m).spec_current_resources()
                &&& *final(ctx) == (ProcessContext { rax: u64::MAX, ..*old(ctx) })
            }
        }),
{
    let entry = match fs.find_path_bytes(path) {
        Ok(Some(e)) => e,
        _ => {
            ctx.set_rax(u64::MAX);
            return ;
        },
    };
    if !entry.is_file() {
        ctx.set_rax(u64::MAX);
        return ;
    }
    let meta = FileMeta { cluster: entry.cluster.0, size: entry.size, offset: 0 };
    match m.open_resource(Resource::File(meta)) {
        Some(fd) => {
            ctx.set_rax(fd as u64);
        },
        None => {
            ctx.set_rax(u64::MAX);
        },
    }
}

/// Closes a descriptor of the current process: zero in the result register
/// when it was open, `u64::MAX` when it was not.
pub fn sys_close(m: &mut ProcessManager, fd: u8, ctx: &mut ProcessContext)
    requires
        old(m).wf(),
    ensures
        final(m).wf(),
        final(m).spec_procs() == old(m).spec_procs(),
        final(m).spec_current() == old(m).spec_current(),
        match crate::resource::spec_fd_index(old(m).spec_current_resources(), 0, fd) {
            Some(i) => final(m).spec_current_resources() == old(
                m,
            ).spec_current_resources().remove(i) && *final(ctx) == (ProcessContext {
                rax: 0,
                ..*old(ctx)
            }),
            None => final(m).spec_current_resources() == old(m).spec_current_resources()
                && *final(ctx) == (ProcessContext { rax: u64::MAX, ..*old(ctx) }),
        },
{
    if m.close_resource(fd) {
        ctx.set_rax(0);
    } else {
        ctx.set_rax(u64::MAX);
    }
}

/// Reads from a descriptor of the current process: console input hands
/// over buffered keys without blocking; a file hands over its bytes at the
/// cursor, clipped to the end of the file, and the cursor advances — a
/// cursor at the end reads zero bytes; the null device reads zero bytes;
/// anything else reports `u64::MAX`. The byte count lands in the result
/// register and the bytes come back for the runtime to copy out.
pub fn sys_read<T: BlockDevice>(
    m: &mut ProcessManager,
    fs: &Fat16Impl<T>,
    fd: u8,
    want: u64,
    input: &mut InputBuffer,
    ctx: &mut ProcessContext,
) -> (bytes: Vec<u8>)
    requires
        old(m).wf(),
        fs.wf(),
        old(input).wf(),
    ensures
        final(m).wf(),
        final(input).wf(),
        final(m).spec_current() == old(m).spec_current(),
        final(m).spec_procs() == old(m).spec_procs(),
        final(ctx).rax == u64::MAX ==> bytes@.len() == 0,
        final(ctx).rax != u64::MAX ==> final(ctx).rax == bytes@.len(),
        ({
            let len: int = if want > 0xFFFF {
                0xFFFF
            } else {
                want as int
            };
            match crate::resource::spec_fd_index(old(m).spec_current_resources(), 0, fd) {
                None => final(ctx).rax == u64::MAX && bytes@.len() == 0,
                Some(i) => match old(m).spec_current_resources()[i].1 {
                    Resource::Console(io) => if io is Stdin {
                        &&& bytes@.len() == vstd::math::min(len, old(input)@.len() as int)
                        &&& bytes@ == old(input)@.subrange(0, bytes@.len() as int)
                        &&& final(input)@ == old(input)@.subrange(
                            bytes@.len() as int,
                            old(input)@.len() as int,
                        )
                        &&& final(ctx).rax == bytes@.len()
                    } else {
                        final(ctx).rax == u64::MAX && bytes@.len() == 0
                    },
                    Resource::Null => final(ctx).rax == 0 && bytes@.len() == 0,
                    Resource::File(meta) => {
                        &&& (meta.offset >= meta.size ==> final(ctx).rax == 0 && bytes@.len()
                            == 0 && final(m).spec_current_resources() == old(
                            m,
                        ).spec_current_resources())
                        &&& (meta.offset < meta.size && final(ctx).rax != u64::MAX
                            ==> final(ctx).rax == bytes@.len() && bytes@.len() <= vstd::math::min(
                            len,
                            meta.size - meta.offset,
                        ) && (bytes@.len() > 0 ==> final(m).spec_current_resources() == old(
                            m,
                        ).spec_current_resources().update(
                            i,
                            (
                                fd,
                                Resource::File(
                                    FileMeta {
                                        offset: (meta.offset + bytes@.len()) as u32,
                                        ..meta
                                    },
                                ),
                            ),
                        )))
                    },
                },
            }
        }),
{
    let len = if want > 0xFFFF {
        0xFFFFu64
    } else {
        want
    };
    let res = match m.get_resource(fd) {
        Some(res) => res,
        None => {
            ctx.set_rax(u64::MAX);
            return Vec::new();
        },
    };
    match res {
        Resource::Console(StdIO::Stdin) => {
            match res.read(input, len as usize) {
                Some(v) => {
                    ctx.set_rax(v.len() as u64);
                    v
                },
                None => {
                    proof {
                        assert(false);
                    }
                    ctx.set_rax(u64::MAX);
                    Vec::new()
                },
            }
        },
        Resource::Console(_) => {
            ctx.set_rax(u64::MAX);
            Vec::new()
        },
        Resource::Null => {
            ctx.set_rax(0);
            Vec::new()
        },
        Resource::File(meta) => {
            if meta.offset >= meta.size {
                ctx.set_rax(0);
                return Vec::new();
            }
            let c = meta.cluster;
            if !(c >= 2 && c < 0xFFF0) {
                ctx.set_rax(u64::MAX);
                return Vec::new();
            }
            let remaining = (meta.size - meta.offset) as u64;
            let n_target: usize = if len < remaining {
                len as usize
            } else {
                remaining as usize
            };
            let mut buf: Vec<u8> = Vec::new();
            let mut bi: usize = 0;
            while bi < n_target
                invariant
                    bi <= n_target,
                    buf@.len() == bi,
                decreases n_target - bi,
            {
                buf.push(0);
                bi = bi + 1;
            }
            let n = match fs.read_file_data(c as u16, meta.offset as usize, buf.as_mut_slice()) {
                Ok(n) => n,
                Err(_) => {
                    ctx.set_rax(u64::MAX);
                    return Vec::new();
                },
            };
            let out = crate::strutil::bytes_at(buf.as_slice(), 0, n);
            if n > 0 {
                let new_meta = FileMeta { offset: meta.offset + n as u32, ..meta };
                let updated = m.update_resource(fd, Resource::File(new_meta));
                proof {
                    assert(updated);
                }
            }
            ctx.set_rax(n as u64);
            out
        },
    }
}

/// What the dispatcher hands back for calls that read bytes.
pub struct DispatchOutcome {
    pub bytes: Vec<u8>,
}

/// Dispatches one syscall against the process manager and the mounted
/// volume. The runtime has already validated any user pointer and passes
/// the bytes behind it as `payload`; bytes read come back for the runtime
/// to copy out. Console writes land in `out`; console reads drain `input`;
/// file opens, reads and closes go through the current group's descriptor
/// table; the user-heap calls are completed by the runtime and report
/// failure here.
pub fn dispatcher<T: BlockDevice>(
    m: &mut ProcessManager,
    fs: &Fat16Impl<T>,
    args: &SyscallArgs,
    payload: &[u8],
    input: &mut InputBuffer,
    out: &mut Vec<u8>,
    ctx: &mut ProcessContext,
) -> (r: DispatchOutcome)
    requires
        old(m).wf(),
        fs.wf(),
        old(input).wf(),
    ensures
        final(m).wf(),
        final(input).wf(),
        args.syscall is GetPid ==> *final(ctx) == (ProcessContext {
            rax: old(m).spec_current() as u64,
            ..*old(ctx)
        }) && *final(m) == *old(m),
        args.syscall is Write && args.arg0 == 1 ==> final(out)@ == old(out)@ + payload@
            && *final(ctx) == (ProcessContext { rax: payload@.len() as u64, ..*old(ctx) }),
        args.syscall is Read ==> (final(ctx).rax == u64::MAX && r.bytes@.len() == 0)
            || final(ctx).rax == r.bytes@.len(),
        args.syscall is Open ==> final(ctx).rax == u64::MAX || (final(ctx).rax < 256
            && final(m).spec_current_resources().len() == old(m).spec_current_resources().len()
            + 1),
        args.syscall is Close ==> (match crate::resource::spec_fd_index(
            old(m).spec_current_resources(),
            0,
            args.arg0 as u8,
        ) {
            Some(i) => final(ctx).rax == 0 && final(m).spec_current_resources() == old(
                m,
            ).spec_current_resources().remove(i),
            None => final(ctx).rax == u64::MAX,
        }),
        args.syscall is Spawn ==> (final(ctx).rax == 0 ==> final(m).spec_procs() == old(
            m,
        ).spec_procs()) && (final(ctx).rax != 0 ==> final(m).spec_procs().len() == old(
            m,
        ).spec_procs().len() + 1 && final(m).spec_procs().last().pid == final(ctx).rax),
        args.syscall is VFork ==> final(ctx).rax != 0 ==> final(m).spec_procs().len() == old(
            m,
        ).spec_procs().len() + 1 && final(m).spec_procs().last().pid == final(ctx).rax,
        args.syscall is Exit && old(m).spec_current() != KERNEL_PID ==> (match spec_pid_index(
            final(m).spec_procs(),
            0,
            old(m).spec_current(),
        ) {
            Some(k) => final(m).spec_procs()[k].status is Dead && final(m).spec_procs()[
            k].exit_code == Some(args.arg0 as i64),
            None => false,
        }) && final(m).spec_current() != old(m).spec_current(),
        args.syscall is Kill && args.arg0 as u16 == KERNEL_PID ==> *final(m) == *old(m),
        args.syscall is WaitPid && old(m).spec_current() != KERNEL_PID ==> (match old(
            m,
        ).spec_index_of(args.arg0 as u16) {
            Some(i) => old(m).spec_procs()[i].exit_code matches Some(c) ==> *final(ctx) == (
            ProcessContext { rax: c as u64, ..*old(ctx) }),
            None => true,
        }),
        args.syscall is Sem && args.arg0 == 0 ==> (final(ctx).rax == 0 <==> crate::sem::spec_key_index(
            old(m).spec_current_sems(),
            0,
            args.arg1 as u32,
        ) is None),
        args.syscall is Sem && args.arg0 == 3 ==> (final(ctx).rax == 0 <==> crate::sem::spec_key_index(
            old(m).spec_current_sems(),
            0,
            args.arg1 as u32,
        ) is Some),
        args.syscall is Brk && args.arg0 == 0 ==> final(ctx).rax == (old(
            m,
        ).spec_current_vm().heap_end_page * crate::procvm::PAGE_SIZE) as u64,
{
    let mut bytes: Vec<u8> = Vec::new();
    match args.syscall {
        Syscall::Read => {
            bytes = sys_read(m, fs, args.arg0 as u8, args.arg2, input, ctx);
        },
        Syscall::Write => {
            if args.arg0 == 1 {
                let plen = payload.len();
                let res = Resource::Console(StdIO::Stdout);
                match res.write(out, payload) {
                    Some(n) => {
                        proof {
                            assert(n == plen);
                        }
                        ctx.set_rax(n as u64);
                    },
                    None => {
                        proof {
                            assert(false);
                        }
                        ctx.set_rax(u64::MAX);
                    },
                }
            } else if args.arg0 == 2 {
                let res = Resource::Console(StdIO::Stderr);
                match res.write(out, payload) {
                    Some(n) => {
                        ctx.set_rax(n as u64);
                    },
                    None => {
                        proof {
                            assert(false);
                        }
                        ctx.set_rax(u64::MAX);
                    },
                }
            } else {
                ctx.set_rax(u64::MAX);
            }
        },
        Syscall::Open => {
            sys_open(m, fs, payload, ctx);
        },
        Syscall::Close => {
            sys_close(m, args.arg0 as u8, ctx);
        },
        Syscall::ListDir => {
            match fs.find_path_bytes(payload) {
                Ok(Some(e)) => {
                    if e.is_directory() {
                        ctx.set_rax(0);
                    } else {
                        ctx.set_rax(1);
                    }
                },
                Ok(None) => {
                    if payload.len() == 0 {
                        ctx.set_rax(0);
                    } else {
                        ctx.set_rax(1);
                    }
                },
                Err(_) => {
                    ctx.set_rax(1);
                },
            }
        },
        Syscall::GetPid => {
            let pid = m.get_pid();
            ctx.set_rax(pid as u64);
        },
        Syscall::VFork => {
            let child = m.vfork(ctx);
            if child == 0 {
                ctx.set_rax(0);
            }
        },
        Syscall::Spawn => {
            let pid = m.spawn(payload);
            ctx.set_rax(pid as u64);
        },
        Syscall::Exit => {
            let pid = m.get_pid();
            proof {
                crate::proc::lemma_index_of_props(m, pid);
            }
            m.kill(pid, args.arg0 as i64, ctx);
        },
        Syscall::WaitPid => {
            if m.get_pid() != KERNEL_PID {
                m.wait_pid(args.arg0 as u16, ctx);
            }
        },
        Syscall::Kill => {
            m.kill(args.arg0 as u16, 0xdead, ctx);
        },
        Syscall::Sem => {
            if args.arg0 == 0 {
                let r = if m.sem_new(args.arg1 as u32, args.arg2 as usize) {
                    0
                } else {
                    1
                };
                ctx.set_rax(r);
            } else if args.arg0 == 1 {
                if m.get_pid() != KERNEL_PID {
                    m.sem_wait(args.arg1 as u32, ctx);
                }
            } else if args.arg0 == 2 {
                m.sem_signal(args.arg1 as u32, ctx);
            } else if args.arg0 == 3 {
                let r = if m.sem_remove(args.arg1 as u32) {
                    0
                } else {
                    1
                };
                ctx.set_rax(r);
            } else {
                ctx.set_rax(u64::MAX);
            }
        },
        Syscall::Brk => {
            let addr = if args.arg0 == 0 {
                None
            } else {
                Some(args.arg0)
            };
            m.brk(addr, ctx);
        },
        Syscall::Stat => {},
        Syscall::ListApp => {},
        Syscall::Allocate | Syscall::Deallocate => {
            ctx.set_rax(u64::MAX);
        },
        Syscall::Unknown => {},
    }
    DispatchOutcome { bytes }
}

} // verus!
