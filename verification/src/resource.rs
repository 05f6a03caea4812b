//! Resources a process reads and writes through file descriptors: the
//! console streams, open files, and the null device. Descriptors 0, 1 and
//! 2 come pre-opened on the console.

use vstd::prelude::*;

use crate::input::InputBuffer;

verus! {

/// The three console streams.
#[derive(Debug, Clone, Copy, PartialEq, Eq, Structural)]
pub enum StdIO {
    Stdin,
    Stdout,
    Stderr,
}

/// What an open file stands on: its first cluster and its byte length.
/// The volume itself lives beside the process table; reads through this
/// resource go to it.
#[derive(Debug, Clone, Copy, PartialEq, Eq, Structural)]
pub struct FileMeta {
    pub cluster: u32,
    pub size: u32,
    pub offset: u32,
}

/// One open resource.
#[derive(Debug, Clone, Copy, PartialEq, Eq, Structural)]
pub enum Resource {
    Console(StdIO),
    File(FileMeta),
    Null,
}

impl Resource {
    /// Reads up to `len` bytes from the resource: the console input hands
    /// over whatever keys are buffered, without blocking, so an empty
    /// buffer reads zero bytes; the null device always reads zero bytes;
    /// output streams cannot be read; file reads go through the volume,
    /// outside this method.
    pub fn read(&self, input: &mut InputBuffer, len: usize) -> (r: Option<Vec<u8>>)
        requires
            old(input).wf(),
        ensures
            final(input).wf(),
            (self is Console && self->Console_0 is Stdin) ==> {
                &&& r is Some
                &&& r->Some_0@.len() == vstd::math::min(len as int, old(input)@.len() as int)
                &&& r->Some_0@ == old(input)@.subrange(0, r->Some_0@.len() as int)
                &&& final(input)@ == old(input)@.subrange(
                    r->Some_0@.len() as int,
                    old(input)@.len() as int,
                )
            },
            self is Null ==> r is Some && r->Some_0@.len() == 0 && *final(input) == *old(input),
            !(self is Null) && !(self is Console && self->Console_0 is Stdin) ==> r is None
                && *final(input) == *old(input),
    {
        match self {
            Resource::Console(StdIO::Stdin) => {
                proof {
                    assert(self is Console && self->Console_0 is Stdin);
                }
                let mut v: Vec<u8> = Vec::new();
                let mut i: usize = 0;
                while i < len
                    invariant
                        self is Console && self->Console_0 is Stdin,
                        i <= len,
                        input.wf(),
                        v@.len() == i,
                        i <= old(input)@.len() ==> v@ == old(input)@.subrange(0, i as int)
                            && input@ == old(input)@.subrange(
                            i as int,
                            old(input)@.len() as int,
                        ),
                        i > old(input)@.len() ==> false,
                        v@.len() <= old(input)@.len(),
                    decreases len - i,
                {
                    match input.try_pop_key() {
                        Some(k) => {
                            v.push(k);
                            proof {
                                assert(v@ =~= old(input)@.subrange(0, i + 1));
                                assert(input@ =~= old(input)@.subrange(
                                    i + 1,
                                    old(input)@.len() as int,
                                ));
                            }
                        },
                        None => {
                            proof {
                                assert(old(input)@.len() == i);
                                assert(v@.len() == vstd::math::min(
                                    len as int,
                                    old(input)@.len() as int,
                                ));
                                assert(v@ == old(input)@.subrange(0, v@.len() as int));
                                assert(input@ =~= old(input)@.subrange(
                                    v@.len() as int,
                                    old(input)@.len() as int,
                                ));
                            }
                            return Some(v);
                        },
                    }
                    i = i + 1;
                }
                Some(v)
            },
            Resource::Null => Some(Vec::new()),
            _ => None,
        }
    }

    /// Writes bytes to the resource: the output streams append to the
    /// console sink and report the byte count; the null device swallows
    /// everything; input cannot be written; file writes are unsupported.
    pub fn write(&self, out: &mut Vec<u8>, data: &[u8]) -> (r: Option<usize>)
        ensures
            (self is Console && (self->Console_0 is Stdout || self->Console_0 is Stderr)) ==> r
                == Some(data@.len() as usize) && final(out)@ == old(out)@ + data@,
            self is Null ==> r == Some(data@.len() as usize) && final(out)@ == old(out)@,
            (self is File || (self is Console && self->Console_0 is Stdin)) ==> r is None
                && final(out)@ == old(out)@,
    {
        match self {
            Resource::Console(StdIO::Stdout) | Resource::Console(StdIO::Stderr) => {
                proof {
                    assert(self is Console && (self->Console_0 is Stdout || self->Console_0
                        is Stderr));
                }
                let n = data.len();
                let mut i: usize = 0;
                while i < n
                    invariant
                        i <= n == data@.len(),
                        out@ == old(out)@ + data@.subrange(0, i as int),
                    decreases n - i,
                {
                    out.push(data[i]);
                    proof {
                        assert(out@ =~= old(out)@ + data@.subrange(0, i + 1));
                    }
                    i = i + 1;
                }
                proof {
                    assert(out@ =~= old(out)@ + data@);
                }
                Some(n)
            },
            Resource::Null => Some(data.len()),
            _ => None,
        }
    }
}

/// The position of descriptor `fd` among `handles`, from `i` on.
pub open spec fn spec_fd_index(handles: Seq<(u8, Resource)>, i: int, fd: u8) -> Option<int>
    decreases handles.len() - i,
{
    if i < 0 || i >= handles.len() {
        None
    } else if handles[i].0 == fd {
        Some(i)
    } else {
        spec_fd_index(handles, i + 1, fd)
    }
}

/// A process's open resources, by descriptor, with closed descriptors kept
/// for reuse.
pub struct ResourceSet {
    handles: Vec<(u8, Resource)>,
    recycled: Vec<u8>,
}

impl ResourceSet {
    pub closed spec fn view(&self) -> Seq<(u8, Resource)> {
        self.handles@
    }

    /// A fresh set: descriptors 0, 1 and 2 are the console.
    pub fn new() -> (r: ResourceSet)
        ensures
            r@.len() == 3,
            r@[0] == (0u8, Resource::Console(StdIO::Stdin)),
            r@[1] == (1u8, Resource::Console(StdIO::Stdout)),
            r@[2] == (2u8, Resource::Console(StdIO::Stderr)),
    {
        let mut handles: Vec<(u8, Resource)> = Vec::new();
        handles.push((0, Resource::Console(StdIO::Stdin)));
        handles.push((1, Resource::Console(StdIO::Stdout)));
        handles.push((2, Resource::Console(StdIO::Stderr)));
        ResourceSet { handles, recycled: Vec::new() }
    }

    /// Opens a resource under a recycled descriptor, or a fresh one.
    pub fn open(&mut self, res: Resource) -> (fd: u8)
        requires
            old(self)@.len() < 250,
        ensures
            final(self)@.len() == old(self)@.len() + 1,
            final(self)@.last() == (fd, res),
            final(self)@.subrange(0, old(self)@.len() as int) == old(self)@,
    {
        let fd = match self.recycled.pop() {
            Some(fd) => fd,
            None => self.handles.len() as u8,
        };
        self.handles.push((fd, res));
        proof {
            assert(self@.subrange(0, old(self)@.len() as int) =~= old(self)@);
        }
        fd
    }

    /// Closes a descriptor; reports whether it was open. The first entry
    /// under the descriptor leaves the table.
    pub fn close(&mut self, fd: u8) -> (r: bool)
        ensures
            match spec_fd_index(old(self)@, 0, fd) {
                Some(i) => r == true && final(self)@ == old(self)@.remove(i),
                None => r == false && final(self)@ == old(self)@,
            },
    {
        let n = self.handles.len();
        let mut i: usize = 0;
        while i < n
            invariant
                i <= n == self@.len(),
                self@ == old(self)@,
                spec_fd_index(old(self)@, 0, fd) == spec_fd_index(old(self)@, i as int, fd),
            decreases n - i,
        {
            if self.handles[i].0 == fd {
                self.handles.remove(i);
                self.recycled.push(fd);
                return true;
            }
            i = i + 1;
        }
        false
    }

    /// How many resources are open.
    pub fn len(&self) -> (r: usize)
        ensures
            r == self@.len(),
    {
        self.handles.len()
    }

    /// Replaces the resource behind an open descriptor; reports whether it
    /// was open.
    pub fn update(&mut self, fd: u8, res: Resource) -> (r: bool)
        ensures
            match spec_fd_index(old(self)@, 0, fd) {
                Some(i) => r == true && final(self)@ == old(self)@.update(i, (fd, res)),
                None => r == false && final(self)@ == old(self)@,
            },
    {
        let n = self.handles.len();
        let mut i: usize = 0;
        while i < n
            invariant
                i <= n == self@.len(),
                self@ == old(self)@,
                spec_fd_index(old(self)@, 0, fd) == spec_fd_index(old(self)@, i as int, fd),
            decreases n - i,
        {
            if self.handles[i].0 == fd {
                self.handles.remove(i);
                self.handles.insert(i, (fd, res));
                proof {
                    assert(self@ =~= old(self)@.update(i as int, (fd, res)));
                }
                return true;
            }
            i = i + 1;
        }
        false
    }

    /// The resource behind a descriptor, if open.
    pub fn get(&self, fd: u8) -> (r: Option<Resource>)
        ensures
            match spec_fd_index(self@, 0, fd) {
                Some(i) => r == Some(self@[i].1),
                None => r is None,
            },
    {
        let n = self.handles.len();
        let mut i: usize = 0;
        while i < n
            invariant
                i <= n == self@.len(),
                spec_fd_index(self@, 0, fd) == spec_fd_index(self@, i as int, fd),
            decreases n - i,
        {
            if self.handles[i].0 == fd {
                let res = self.handles[i].1;
                return Some(res);
            }
            i = i + 1;
        }
        None
    }
}

} // verus!
