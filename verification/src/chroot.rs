//! The chroot executor's decisions.
//!
//! The executor itself forks, wires two stream sockets between parent and
//! child, chroots the child into the staging root and executes the command
//! under the shell; that plumbing lives with the surrounding binary.  What is
//! decided here: the argument vector the child executes, and what the
//! parent's poll loop does on each wakeup — byte-at-a-time streaming that
//! bounds in-flight data and keeps either direction from starving the other.

use vstd::prelude::*;
use vstd::string::StrSliceExecFns;

verus! {

/// What the parent does after one poll wakeup.
#[derive(Debug, Clone, PartialEq, Eq, Structural)]
pub enum ChrootIo {
    /// Read one byte from the child and copy it to standard output; end of
    /// file from the child ends the exchange.
    CopyChildByte,
    /// Write this byte of the remaining input to the child.
    SendByte(u8),
    /// The input is exhausted: close the child's standard input and stop
    /// polling for writability.
    CloseStdin,
    /// Neither side made progress: the poll state is broken, which is fatal.
    Fail,
}

/// One step of the parent's poll loop: the child's output is drained first;
/// otherwise one byte of the remaining input (`input` from `pos` on) is fed,
/// or the child's input is closed once nothing remains.
pub fn chroot_io_step(child_readable: bool, stdin_writable: bool, input: &Vec<u8>, pos: usize) -> (r:
    ChrootIo)
    requires
        pos <= input@.len(),
    ensures
        child_readable ==> r == ChrootIo::CopyChildByte,
        !child_readable && stdin_writable && pos < input@.len() ==> r == ChrootIo::SendByte(
            input@[pos as int],
        ),
        !child_readable && stdin_writable && pos == input@.len() ==> r == ChrootIo::CloseStdin,
        !child_readable && !stdin_writable ==> r == ChrootIo::Fail,
{
    if child_readable {
        ChrootIo::CopyChildByte
    } else if stdin_writable {
        if pos < input.len() {
            ChrootIo::SendByte(input[pos])
        } else {
            ChrootIo::CloseStdin
        }
    } else {
        ChrootIo::Fail
    }
}

/// The argument vector the child executes: the shell, tracing enabled, with
/// the command line as one argument.
pub fn bash_argv(cmdline: &str) -> (r: Vec<String>)
    ensures
        r@.len() == 4,
        r@[0]@ == "/bin/bash"@,
        r@[1]@ == "-x"@,
        r@[2]@ == "-c"@,
        r@[3]@ == cmdline@,
{
    let mut r: Vec<String> = Vec::new();
    r.push("/bin/bash".to_owned());
    r.push("-x".to_owned());
    r.push("-c".to_owned());
    r.push(cmdline.to_owned());
    r
}

} // verus!
