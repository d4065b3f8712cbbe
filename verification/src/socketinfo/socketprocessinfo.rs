//! The process that holds a socket.
use vstd::prelude::*;
use crate::socketinfo::socketprocessinfo_builder::ProcessInfoBuilder;

verus! {

broadcast use vstd::string::group_string_axioms;

#[derive(Debug, Eq, Hash, PartialEq)]
pub struct ProcessInfo {
    pub pid: usize,
    pub ppid: Option<usize>,
    pub process_cmdline: String,
}

impl Default for ProcessInfo {
    fn default() -> (r: ProcessInfo)
        ensures
            r.pid == 0,
            r.ppid is None,
            r.process_cmdline@ == Seq::<char>::empty(),
    {
        ProcessInfo { pid: 0, ppid: None, process_cmdline: String::new() }
    }
}

impl ProcessInfo {
    /// A builder that looks for the process holding socket inode `inode`.
    pub fn builder(inode: usize) -> (r: ProcessInfoBuilder)
        ensures
            r.inode() == inode,
    {
        ProcessInfoBuilder::new(inode)
    }
}

} // verus!
