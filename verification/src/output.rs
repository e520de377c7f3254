//! The result record that every component operation returns: an overall
//! status, the status of a wrapped external command, and the collected
//! standard-output and standard-error lines.

use vstd::prelude::*;

verus! {

/// Outcome of one component operation. `status` is this library's own
/// status (0 means success), `wrapped_status` is the exit status of an
/// external command the operation ran, and `stdout` / `stderr` collect
/// the lines the operation wants to report.
pub struct SROutput {
    pub status: i32,
    pub wrapped_status: i32,
    pub stdout: Vec<String>,
    pub stderr: Vec<String>,
}

impl SROutput {
    /// A fresh, successful, empty result.
    pub fn new() -> (r: SROutput)
        ensures
            r.status == 0,
            r.wrapped_status == 0,
            r.stdout@ == Seq::<String>::empty(),
            r.stderr@ == Seq::<String>::empty(),
    {
        SROutput { status: 0, wrapped_status: 0, stdout: Vec::new(), stderr: Vec::new() }
    }
}

/// Merges the second result into the first: output lines are appended in
/// order, and the first non-zero `status` wins (an error already recorded
/// in `dest` is never overwritten). `wrapped_status` stays `dest`'s.
pub fn combine_sroutputs(dest: SROutput, src: SROutput) -> (r: SROutput)
    ensures
        r.status == (if dest.status == 0 && src.status != 0 { src.status } else { dest.status }),
        r.wrapped_status == dest.wrapped_status,
        r.stdout@ == dest.stdout@ + src.stdout@,
        r.stderr@ == dest.stderr@ + src.stderr@,
{
    let mut dest = dest;
    let ghost d0 = dest;
    let ghost dest_stdout0 = dest.stdout@;
    let mut i: usize = 0;
    while i < src.stdout.len()
        invariant
            i <= src.stdout.len(),
            dest.stdout@ == dest_stdout0 + src.stdout@.subrange(0, i as int),
            dest.status == d0.status,
            dest.wrapped_status == d0.wrapped_status,
            dest.stderr == d0.stderr,
        decreases src.stdout.len() - i,
    {
        dest.stdout.push(src.stdout[i].clone());
        proof {
            assert(dest.stdout@ =~= dest_stdout0 + src.stdout@.subrange(0, i + 1));
        }
        i = i + 1;
    }
    proof {
        assert(dest.stdout@ =~= dest_stdout0 + src.stdout@);
    }

    let ghost dest_stderr0 = dest.stderr@;
    let mut j: usize = 0;
    while j < src.stderr.len()
        invariant
            j <= src.stderr.len(),
            dest.stderr@ == dest_stderr0 + src.stderr@.subrange(0, j as int),
            dest.status == d0.status,
            dest.wrapped_status == d0.wrapped_status,
            dest.stdout@ == dest_stdout0 + src.stdout@,
        decreases src.stderr.len() - j,
    {
        dest.stderr.push(src.stderr[j].clone());
        proof {
            assert(dest.stderr@ =~= dest_stderr0 + src.stderr@.subrange(0, j + 1));
        }
        j = j + 1;
    }
    proof {
        assert(dest.stderr@ =~= dest_stderr0 + src.stderr@);
    }

    if dest.status == 0 && src.status != 0 {
        dest.status = src.status;
    }

    dest
}

} // verus!
