//! Finding the processes that hold sockets.
//!
//! What a process holds is read from `/proc/<pid>/fd`: the inode of each of
//! its file descriptors. Reading it is left to the caller, who hands each
//! process over as a `ProcessFds`; the decisions are made here.
use vstd::prelude::*;
use crate::socketinfo::linuxsocket::SocketInfo;
use crate::socketinfo::socketprocessinfo::ProcessInfo;
use crate::text::{
    chars_of, decimal, decimal_string, lemma_decimal_injective, parse_usize_range,
    parse_usize_text,
};

verus! {

broadcast use vstd::string::group_string_axioms;

/// A process id, as it is named in `/proc`, and the inodes of the entries of
/// its `fd` directory (`None` where an entry's metadata could not be read).
pub struct ProcessFds {
    pub pid: String,
    pub fd_inodes: Vec<Option<u64>>,
}

/// A socket inode, in decimal, and the index of the process that holds it.
pub struct InodeOwner {
    pub inode: String,
    pub process: usize,
}

/// The text an `fd` entry is compared by: its inode in decimal, or the empty
/// text where its metadata could not be read.
pub open spec fn inode_text(x: Option<u64>) -> Seq<char> {
    match x {
        Some(v) => decimal(v as nat),
        None => seq![],
    }
}

/// How many entries of `fds` have the text `inode`.
pub open spec fn count_matching(fds: Seq<Option<u64>>, inode: Seq<char>) -> nat
    decreases fds.len(),
{
    if fds.len() == 0 {
        0
    } else {
        count_matching(fds.drop_last(), inode) + if inode_text(fds.last()) == inode {
            1nat
        } else {
            0nat
        }
    }
}

/// Whether some entry of `fds` has the text `inode`.
pub open spec fn holds_inode(fds: Seq<Option<u64>>, inode: Seq<char>) -> bool {
    exists|j: int| 0 <= j < fds.len() && inode_text(#[trigger] fds[j]) == inode
}

/// The names that are process ids: those that read as a `usize`.
pub open spec fn numeric_names(names: Seq<Seq<char>>) -> Seq<Seq<char>>
    decreases names.len(),
{
    if names.len() == 0 {
        seq![]
    } else {
        numeric_names(names.drop_last()) + if parse_usize_text(names.last()) is Some {
            seq![names.last()]
        } else {
            seq![]
        }
    }
}

/// Every name kept is a process id, and every name that is one is kept.
pub proof fn lemma_numeric_names(names: Seq<Seq<char>>)
    ensures
        forall|i: int|
            0 <= i < numeric_names(names).len() ==> parse_usize_text(
                #[trigger] numeric_names(names)[i],
            ) is Some,
        forall|i: int|
            0 <= i < names.len() && parse_usize_text(#[trigger] names[i]) is Some
                ==> numeric_names(names).contains(names[i]),
    decreases names.len(),
{
    if names.len() > 0 {
        let init = names.drop_last();
        lemma_numeric_names(init);
        let prev = numeric_names(init);
        let cur = numeric_names(names);
        assert forall|i: int|
            0 <= i < names.len() && parse_usize_text(#[trigger] names[i]) is Some
                implies cur.contains(names[i]) by {
            if i < names.len() - 1 {
                assert(init[i] == names[i]);
                let j = choose|j: int| 0 <= j < prev.len() && prev[j] == init[i];
                assert(cur[j] == prev[j]);
            } else {
                assert(cur[cur.len() - 1] == names.last());
            }
        }
        assert forall|i: int| 0 <= i < cur.len() implies parse_usize_text(#[trigger] cur[i]) is Some by {
            if i < prev.len() {
                assert(cur[i] == prev[i]);
            }
        }
    }
}

/// The number of entries with a text is positive exactly when some entry has
/// it; in particular a process that `has_inode` accepts holds the inode.
pub proof fn lemma_count_matching(fds: Seq<Option<u64>>, inode: Seq<char>)
    ensures
        count_matching(fds, inode) > 0 <==> holds_inode(fds, inode),
        count_matching(fds, inode) == 1 ==> holds_inode(fds, inode),
    decreases fds.len(),
{
    if fds.len() > 0 {
        let init = fds.drop_last();
        lemma_count_matching(init, inode);
        if holds_inode(init, inode) {
            let j = choose|j: int| 0 <= j < init.len() && inode_text(#[trigger] init[j]) == inode;
            assert(fds[j] == init[j]);
        }
        if holds_inode(fds, inode) && inode_text(fds.last()) != inode {
            let j = choose|j: int| 0 <= j < fds.len() && inode_text(#[trigger] fds[j]) == inode;
            assert(init[j] == fds[j]);
        }
        if inode_text(fds.last()) == inode {
            assert(inode_text(fds[fds.len() - 1]) == inode);
        }
    }
}

pub open spec fn string_views(v: Seq<String>) -> Seq<Seq<char>> {
    v.map_values(|s: String| s@)
}

/// The entries of `/proc` that name processes, in their order.
pub fn get_running_processes(dir_entries: &Vec<String>) -> (r: Vec<String>)
    ensures
        string_views(r@) == numeric_names(string_views(dir_entries@)),
{
    let mut r: Vec<String> = Vec::new();
    let mut i: usize = 0;
    while i < dir_entries.len()
        invariant
            i <= dir_entries.len(),
            string_views(r@) == numeric_names(string_views(dir_entries@.take(i as int))),
        decreases dir_entries.len() - i,
    {
        let name = &dir_entries[i];
        let chars = chars_of(name.as_str());
        assert(chars@.subrange(0, chars.len() as int) =~= chars@);
        let numeric = parse_usize_range(&chars, 0, chars.len()).is_some();
        let ghost before = string_views(r@);
        if numeric {
            r.push(name.clone());
        }
        proof {
            let names = string_views(dir_entries@.take(i + 1));
            assert(names.drop_last() =~= string_views(dir_entries@.take(i as int)));
            assert(names.last() == name@);
            if numeric {
                assert(string_views(r@) =~= before + seq![name@]);
            } else {
                assert(string_views(r@) =~= before + Seq::<Seq<char>>::empty());
            }
        }
        i = i + 1;
    }
    assert(dir_entries@.take(dir_entries.len() as int) =~= dir_entries@);
    r
}

/// Whether exactly one entry of `fd_inodes` has the text `inode`.
pub fn has_inode(fd_inodes: &Vec<Option<u64>>, inode: &String) -> (r: bool)
    ensures
        r == (count_matching(fd_inodes@, inode@) == 1),
{
    let mut count: usize = 0;
    let mut j: usize = 0;
    while j < fd_inodes.len()
        invariant
            j <= fd_inodes.len(),
            count == count_matching(fd_inodes@.take(j as int), inode@),
            count <= j,
        decreases fd_inodes.len() - j,
    {
        let same = match fd_inodes[j] {
            Some(v) => decimal_string(v) == *inode,
            None => inode.as_str().is_empty(),
        };
        proof {
            let t = fd_inodes@.take(j + 1);
            assert(t.drop_last() =~= fd_inodes@.take(j as int));
            assert(t.last() == fd_inodes@[j as int]);
            if fd_inodes@[j as int] is None {
                assert(same == (inode@ =~= Seq::<char>::empty()));
            }
        }
        if same {
            count = count + 1;
        }
        j = j + 1;
    }
    assert(fd_inodes@.take(fd_inodes.len() as int) =~= fd_inodes@);
    count == 1
}

/// Whether process `p` is taken to hold socket inode `inode`: exactly one of
/// its entries has the inode's text.
pub open spec fn process_has_inode(p: ProcessFds, inode: usize) -> bool {
    count_matching(p.fd_inodes@, decimal(inode as nat)) == 1
}

/// The index of the first process that holds socket inode `inode`, if any.
pub fn get_processinfo_for_inode(inode: usize, processes: &Vec<ProcessFds>) -> (r: Option<usize>)
    ensures
        match r {
            Some(i) => {
                &&& i < processes.len()
                &&& process_has_inode(processes@[i as int], inode)
                &&& forall|j: int| 0 <= j < i ==> !process_has_inode(#[trigger] processes@[j], inode)
            },
            None => forall|j: int|
                0 <= j < processes.len() ==> !process_has_inode(#[trigger] processes@[j], inode),
        },
{
    let inode_str = decimal_string(inode as u64);
    let mut i: usize = 0;
    while i < processes.len()
        invariant
            i <= processes.len(),
            inode_str@ == decimal(inode as nat),
            forall|j: int| 0 <= j < i ==> !process_has_inode(#[trigger] processes@[j], inode),
        decreases processes.len() - i,
    {
        if has_inode(&processes[i].fd_inodes, &inode_str) {
            return Some(i);
        }
        i = i + 1;
    }
    None
}

/// The process record of process `process_id` with command line
/// `process_cmdline`.
pub fn make_process_info(process_id: &String, process_cmdline: String) -> (r: ProcessInfo)
    requires
        parse_usize_text(process_id@) is Some,
    ensures
        parse_usize_text(process_id@) == Some(r.pid as nat),
        r.ppid is None,
        r.process_cmdline@ == process_cmdline@,
{
    let chars = chars_of(process_id.as_str());
    assert(chars@.subrange(0, chars.len() as int) =~= chars@);
    let pid = parse_usize_range(&chars, 0, chars.len()).unwrap();
    ProcessInfo { pid, process_cmdline, ..ProcessInfo::default() }
}

/// Looks for the process that holds a socket inode.
pub struct ProcessInfoBuilder {
    inode: usize,
}

impl ProcessInfoBuilder {
    pub closed spec fn inode(&self) -> usize {
        self.inode
    }

    pub fn new(inode: usize) -> (r: Self)
        ensures
            r.inode() == inode,
    {
        ProcessInfoBuilder { inode }
    }

    /// The index of the first process that holds the inode, if any.
    pub fn build(self, processes: &Vec<ProcessFds>) -> (r: Option<usize>)
        ensures
            match r {
                Some(i) => {
                    &&& i < processes.len()
                    &&& process_has_inode(processes@[i as int], self.inode())
                    &&& forall|j: int|
                        0 <= j < i ==> !process_has_inode(#[trigger] processes@[j], self.inode())
                },
                None => forall|j: int|
                    0 <= j < processes.len() ==> !process_has_inode(
                        #[trigger] processes@[j],
                        self.inode(),
                    ),
            },
    {
        get_processinfo_for_inode(self.inode, processes)
    }
}

/// How many entries of `fds` are the inode `n`.
pub open spec fn count_inode(fds: Seq<Option<u64>>, n: nat) -> nat
    decreases fds.len(),
{
    if fds.len() == 0 {
        0
    } else {
        count_inode(fds.drop_last(), n) + if fds.last() == Some(n as u64) && n <= u64::MAX {
            1nat
        } else {
            0nat
        }
    }
}

/// Comparing entries with the decimal text of inode `n` counts the entries
/// that are `n`.
pub proof fn lemma_count_matching_decimal(fds: Seq<Option<u64>>, n: nat)
    ensures
        count_matching(fds, decimal(n)) == count_inode(fds, n),
    decreases fds.len(),
{
    if fds.len() > 0 {
        lemma_count_matching_decimal(fds.drop_last(), n);
        match fds.last() {
            Some(x) => lemma_decimal_injective(x as nat, n),
            None => crate::text::lemma_digits_of(n, 10),
        }
    }
}

/// A process is taken to hold socket inode `n` exactly when exactly one of
/// its entries is `n`, whatever the size of `n`.
pub proof fn lemma_process_has_inode(p: ProcessFds, n: usize)
    ensures
        process_has_inode(p, n) <==> count_inode(p.fd_inodes@, n as nat) == 1,
{
    lemma_count_matching_decimal(p.fd_inodes@, n as nat);
}

/// Some entry has the decimal text of inode `n` exactly when some entry is
/// `n`.
pub proof fn lemma_holds_inode_decimal(fds: Seq<Option<u64>>, n: nat)
    ensures
        holds_inode(fds, decimal(n)) <==> exists|j: int|
            0 <= j < fds.len() && #[trigger] fds[j] == Some(n as u64) && n <= u64::MAX,
{
    crate::text::lemma_digits_of(n, 10);
    if holds_inode(fds, decimal(n)) {
        let j = choose|j: int| 0 <= j < fds.len() && inode_text(#[trigger] fds[j]) == decimal(n);
        match fds[j] {
            Some(x) => lemma_decimal_injective(x as nat, n),
            None => {},
        }
    }
    if exists|j: int| 0 <= j < fds.len() && #[trigger] fds[j] == Some(n as u64) && n <= u64::MAX {
        let j = choose|j: int|
            0 <= j < fds.len() && #[trigger] fds[j] == Some(n as u64) && n <= u64::MAX;
        assert(inode_text(fds[j]) == decimal(n));
    }
}

/// Every inode above 2 of a socket is looked for, whatever its size; no
/// other inode is.
pub proof fn lemma_socket_inodes_wanted(sockets: Seq<SocketInfo>, i: int, v: nat)
    requires
        0 <= i < sockets.len(),
    ensures
        sockets[i].inode > 2 ==> wanted_inode(sockets, sockets[i].inode as nat),
        wanted_inode(sockets, v) ==> v > 2 && exists|k: int|
            0 <= k < sockets.len() && (#[trigger] sockets[k]).inode == v,
{
}

/// Whether `v` is the inode of one of `sockets`, and above 2 (the inodes that
/// are worth looking for).
pub open spec fn wanted_inode(sockets: Seq<SocketInfo>, v: nat) -> bool {
    &&& v > 2
    &&& exists|i: int| 0 <= i < sockets.len() && (#[trigger] sockets[i]).inode == v
}

/// Whether `text` is the decimal text of an inode wanted from `sockets`.
pub open spec fn is_wanted_text(sockets: Seq<SocketInfo>, text: Seq<char>) -> bool {
    exists|v: nat| wanted_inode(sockets, v) && text == #[trigger] decimal(v)
}

/// Whether process `p` is the first of `processes` whose entries include the
/// text `inode`.
pub open spec fn is_first_holder(processes: Seq<ProcessFds>, p: int, inode: Seq<char>) -> bool {
    &&& 0 <= p < processes.len()
    &&& holds_inode(processes[p].fd_inodes@, inode)
    &&& forall|q: int| 0 <= q < p ==> !holds_inode(#[trigger] processes[q].fd_inodes@, inode)
}

/// Whether some entry of `fds` has the inode `v`.
fn holds(fds: &Vec<Option<u64>>, v: usize) -> (r: bool)
    ensures
        r == holds_inode(fds@, decimal(v as nat)),
{
    let mut j: usize = 0;
    while j < fds.len()
        invariant
            j <= fds.len(),
            forall|q: int| 0 <= q < j ==> inode_text(#[trigger] fds@[q]) != decimal(v as nat),
        decreases fds.len() - j,
    {
        match fds[j] {
            Some(x) => {
                proof {
                    lemma_decimal_injective(x as nat, v as nat);
                }
                if x == v as u64 {
                    assert(inode_text(fds@[j as int]) == decimal(v as nat));
                    return true;
                }
            },
            None => {
                proof {
                    crate::text::lemma_digits_of(v as nat, 10);
                }
            },
        }
        j = j + 1;
    }
    false
}

/// Whether `v` occurs in `w`.
fn contains_usize(w: &Vec<usize>, v: usize) -> (r: bool)
    ensures
        r == w@.contains(v),
{
    let mut k: usize = 0;
    while k < w.len()
        invariant
            k <= w.len(),
            forall|q: int| 0 <= q < k ==> w@[q] != v,
        decreases w.len() - k,
    {
        if w[k] == v {
            return true;
        }
        k = k + 1;
    }
    false
}

/// The distinct inodes above 2 of `sockets`.
fn wanted_inodes(sockets: &Vec<SocketInfo>) -> (w: Vec<usize>)
    ensures
        forall|k: int| 0 <= k < w.len() ==> wanted_inode(sockets@, #[trigger] w@[k] as nat),
        forall|k1: int, k2: int| 0 <= k1 < k2 < w.len() ==> w@[k1] != w@[k2],
        forall|v: nat| wanted_inode(sockets@, v) ==> w@.contains(v as usize),
{
    let mut w: Vec<usize> = Vec::new();
    let mut i: usize = 0;
    while i < sockets.len()
        invariant
            i <= sockets.len(),
            forall|k: int| 0 <= k < w.len() ==> wanted_inode(sockets@, #[trigger] w@[k] as nat),
            forall|k1: int, k2: int| 0 <= k1 < k2 < w.len() ==> w@[k1] != w@[k2],
            forall|q: int|
                0 <= q < i && (#[trigger] sockets@[q]).inode > 2 ==> w@.contains(
                    sockets@[q].inode,
                ),
        decreases sockets.len() - i,
    {
        let v = sockets[i].inode;
        if v > 2 && !contains_usize(&w, v) {
            let ghost before = w@;
            w.push(v);
            proof {
                assert(wanted_inode(sockets@, v as nat));
                assert forall|q: int|
                    0 <= q < i && (#[trigger] sockets@[q]).inode > 2 implies w@.contains(
                    sockets@[q].inode,
                ) by {
                    let k = choose|k: int| 0 <= k < before.len() && before[k] == sockets@[q].inode;
                    assert(w@[k] == before[k]);
                }
                assert(w@[w.len() - 1] == v);
            }
        }
        i = i + 1;
    }
    proof {
        assert forall|v: nat| wanted_inode(sockets@, v) implies w@.contains(v as usize) by {
            let q = choose|q: int| 0 <= q < sockets.len() && (#[trigger] sockets@[q]).inode == v;
            assert(sockets@[q].inode > 2);
        }
    }
    w
}

/// For each inode above 2 of `socket_list` that some process holds, the
/// first process of `processes` (in their order) that holds it, where a
/// process holds an inode when one of its entries has the inode's text.
/// Each inode occurs once.
pub fn get_processes_info(socket_list: &Vec<SocketInfo>, processes: &Vec<ProcessFds>) -> (r: Vec<
    InodeOwner,
>)
    ensures
        forall|e: int| 0 <= e < r.len() ==> is_wanted_text(socket_list@, (#[trigger] r@[e]).inode@),
        forall|e: int|
            0 <= e < r.len() ==> is_first_holder(
                processes@,
                (#[trigger] r@[e]).process as int,
                r@[e].inode@,
            ),
        forall|e1: int, e2: int|
            0 <= e1 < e2 < r.len() ==> (#[trigger] r@[e1]).inode@ != (#[trigger] r@[e2]).inode@,
        forall|v: nat, p: int|
            wanted_inode(socket_list@, v) && 0 <= p < processes.len() && holds_inode(
                (#[trigger] processes@[p]).fd_inodes@,
                #[trigger] decimal(v),
            ) ==> exists|e: int| 0 <= e < r.len() && (#[trigger] r@[e]).inode@ == decimal(v),
        forall|i: int, p: int, j: int|
            0 <= i < socket_list.len() && (#[trigger] socket_list@[i]).inode > 2 && 0 <= p
                < processes.len() && 0 <= j < processes@[p].fd_inodes.len()
                && #[trigger] processes@[p].fd_inodes@[j] == Some(socket_list@[i].inode as u64)
                ==> exists|e: int|
                0 <= e < r.len() && (#[trigger] r@[e]).inode@ == decimal(
                    socket_list@[i].inode as nat,
                ) && r@[e].process <= p,
{
    let w = wanted_inodes(socket_list);
    let ghost wanted = w@;
    let mut assigned: Vec<bool> = Vec::new();
    let mut k: usize = 0;
    while k < w.len()
        invariant
            k <= w.len(),
            assigned.len() == k,
            forall|q: int| 0 <= q < k ==> !assigned@[q],
        decreases w.len() - k,
    {
        assigned.push(false);
        k = k + 1;
    }
    let mut r: Vec<InodeOwner> = Vec::new();
    let ghost mut keys: Seq<int> = seq![];
    let mut pi: usize = 0;
    while pi < processes.len()
        invariant
            pi <= processes.len(),
            w@ == wanted,
            forall|k: int| 0 <= k < w.len() ==> wanted_inode(socket_list@, #[trigger] w@[k] as nat),
            forall|v: nat| wanted_inode(socket_list@, v) ==> w@.contains(v as usize),
            assigned.len() == w.len(),
            forall|k1: int, k2: int| 0 <= k1 < k2 < w.len() ==> w@[k1] != w@[k2],
            forall|q: int|
                0 <= q < w.len() ==> ((#[trigger] assigned@[q]) <==> exists|p: int|
                    0 <= p < pi && holds_inode(
                        (#[trigger] processes@[p]).fd_inodes@,
                        decimal(w@[q] as nat),
                    )),
            keys.len() == r.len(),
            forall|e: int|
                0 <= e < r.len() ==> {
                    &&& 0 <= #[trigger] keys[e] < w.len()
                    &&& assigned@[keys[e]]
                    &&& r@[e].inode@ == decimal(w@[keys[e]] as nat)
                    &&& (r@[e].process as int) < pi
                    &&& is_first_holder(processes@, r@[e].process as int, r@[e].inode@)
                },
            forall|e1: int, e2: int| 0 <= e1 < e2 < r.len() ==> keys[e1] != keys[e2],
            forall|q: int|
                0 <= q < w.len() && #[trigger] assigned@[q] ==> exists|e: int|
                    0 <= e < r.len() && keys[e] == q,
        decreases processes.len() - pi,
    {
        let fds = &processes[pi].fd_inodes;
        let mut k: usize = 0;
        while k < w.len()
            invariant
                pi < processes.len(),
                fds == processes@[pi as int].fd_inodes,
                k <= w.len(),
                assigned.len() == w.len(),
                forall|k1: int, k2: int| 0 <= k1 < k2 < w.len() ==> w@[k1] != w@[k2],
                forall|q: int|
                    0 <= q < k ==> ((#[trigger] assigned@[q]) <==> exists|p: int|
                        0 <= p <= pi && holds_inode(
                            (#[trigger] processes@[p]).fd_inodes@,
                            decimal(w@[q] as nat),
                        )),
                forall|q: int|
                    k <= q < w.len() ==> ((#[trigger] assigned@[q]) <==> exists|p: int|
                        0 <= p < pi && holds_inode(
                            (#[trigger] processes@[p]).fd_inodes@,
                            decimal(w@[q] as nat),
                        )),
                keys.len() == r.len(),
                forall|e: int|
                    0 <= e < r.len() ==> {
                        &&& 0 <= #[trigger] keys[e] < w.len()
                        &&& assigned@[keys[e]]
                        &&& r@[e].inode@ == decimal(w@[keys[e]] as nat)
                        &&& (r@[e].process as int) <= pi
                        &&& is_first_holder(processes@, r@[e].process as int, r@[e].inode@)
                    },
                forall|e1: int, e2: int| 0 <= e1 < e2 < r.len() ==> keys[e1] != keys[e2],
                forall|q: int|
                    0 <= q < w.len() && #[trigger] assigned@[q] ==> exists|e: int|
                        0 <= e < r.len() && keys[e] == q,
            decreases w.len() - k,
        {
            let was = assigned[k];
            let h = holds(fds, w[k]);
            if !was && h {
                let ghost old_assigned = assigned@;
                let ghost old_keys = keys;
                let ghost old_r = r@;
                let text = decimal_string(w[k] as u64);
                r.push(InodeOwner { inode: text, process: pi });
                assigned.set(k, true);
                proof {
                    keys = keys.push(k as int);
                    let d = decimal(w@[k as int] as nat);
                    assert(is_first_holder(processes@, pi as int, d)) by {
                        assert forall|q: int| 0 <= q < pi implies !holds_inode(
                            #[trigger] processes@[q].fd_inodes@,
                            d,
                        ) by {
                            if holds_inode(processes@[q].fd_inodes@, d) {
                                assert(old_assigned[k as int]);
                            }
                        }
                    }
                    assert forall|e1: int, e2: int|
                        0 <= e1 < e2 < r.len() implies keys[e1] != keys[e2] by {
                        if e2 == r.len() - 1 && e1 < e2 {
                            if keys[e1] == k {
                                assert(old_assigned[k as int]);
                            }
                        }
                    }
                    assert forall|q: int|
                        0 <= q < w.len() && #[trigger] assigned@[q] implies exists|e: int|
                            0 <= e < r.len() && keys[e] == q by {
                        if q == k {
                            assert(keys[r.len() - 1] == q);
                        } else {
                            assert(old_assigned[q]);
                            let e = choose|e: int| 0 <= e < old_r.len() && old_keys[e] == q;
                            assert(keys[e] == q);
                        }
                    }
                    assert forall|e: int| 0 <= e < r.len() implies {
                        &&& 0 <= #[trigger] keys[e] < w.len()
                        &&& assigned@[keys[e]]
                        &&& r@[e].inode@ == decimal(w@[keys[e]] as nat)
                        &&& (r@[e].process as int) <= pi
                        &&& is_first_holder(processes@, r@[e].process as int, r@[e].inode@)
                    } by {
                        if e < old_r.len() {
                            assert(r@[e] == old_r[e]);
                            assert(keys[e] == old_keys[e]);
                            assert(old_assigned[old_keys[e]]);
                        }
                    }
                    assert forall|q: int|
                        0 <= q < k + 1 implies ((#[trigger] assigned@[q]) <==> exists|p: int|
                            0 <= p <= pi && holds_inode(
                                (#[trigger] processes@[p]).fd_inodes@,
                                decimal(w@[q] as nat),
                            )) by {
                        if q == k {
                            assert(holds_inode(processes@[pi as int].fd_inodes@, decimal(w@[q] as nat)));
                        } else {
                            assert(assigned@[q] == old_assigned[q]);
                        }
                    }
                }
            } else {
                proof {
                    let q = k as int;
                    if !was {
                        assert(!h);
                        assert forall|p: int|
                            0 <= p <= pi implies !holds_inode(
                            (#[trigger] processes@[p]).fd_inodes@,
                            decimal(w@[q] as nat),
                        ) by {
                            if p < pi && holds_inode(processes@[p].fd_inodes@, decimal(w@[q] as nat)) {
                                assert(assigned@[q]);
                            }
                        }
                    } else {
                        let p = choose|p: int|
                            0 <= p < pi && holds_inode(
                                (#[trigger] processes@[p]).fd_inodes@,
                                decimal(w@[q] as nat),
                            );
                        assert(0 <= p <= pi && holds_inode(processes@[p].fd_inodes@, decimal(w@[q] as nat)));
                    }
                }
            }
            k = k + 1;
        }
        proof {
            assert forall|q: int|
                0 <= q < w.len() implies ((#[trigger] assigned@[q]) <==> exists|p: int|
                    0 <= p < pi + 1 && holds_inode(
                        (#[trigger] processes@[p]).fd_inodes@,
                        decimal(w@[q] as nat),
                    )) by {
                if assigned@[q] {
                    let p = choose|p: int|
                        0 <= p <= pi && holds_inode(
                            (#[trigger] processes@[p]).fd_inodes@,
                            decimal(w@[q] as nat),
                        );
                    assert(0 <= p < pi + 1);
                }
            }
        }
        pi = pi + 1;
    }
    proof {
        assert forall|e: int| 0 <= e < r.len() implies is_wanted_text(
            socket_list@,
            (#[trigger] r@[e]).inode@,
        ) by {
            let q = keys[e];
            assert(wanted_inode(socket_list@, w@[q] as nat));
            assert(r@[e].inode@ == decimal(w@[q] as nat));
        }
        assert forall|e: int| 0 <= e < r.len() implies is_first_holder(
            processes@,
            (#[trigger] r@[e]).process as int,
            r@[e].inode@,
        ) by {
            let q = keys[e];
        }
        assert forall|e1: int, e2: int|
            0 <= e1 < e2 < r.len() implies (#[trigger] r@[e1]).inode@ != (#[trigger] r@[e2]).inode@ by {
            lemma_decimal_injective(w@[keys[e1]] as nat, w@[keys[e2]] as nat);
        }
        assert forall|v: nat, p: int|
            wanted_inode(socket_list@, v) && 0 <= p < processes.len() && holds_inode(
                (#[trigger] processes@[p]).fd_inodes@,
                #[trigger] decimal(v),
            ) implies exists|e: int| 0 <= e < r.len() && (#[trigger] r@[e]).inode@ == decimal(v) by {
            let q = choose|q: int| 0 <= q < w.len() && w@[q] == v as usize;
            assert(assigned@[q]);
            let e = choose|e: int| 0 <= e < r.len() && keys[e] == q;
            assert(r@[e].inode@ == decimal(v));
        }
        assert forall|i: int, p: int, j: int|
            0 <= i < socket_list.len() && (#[trigger] socket_list@[i]).inode > 2 && 0 <= p
                < processes.len() && 0 <= j < processes@[p].fd_inodes.len()
                && #[trigger] processes@[p].fd_inodes@[j] == Some(socket_list@[i].inode as u64)
                implies exists|e: int|
                0 <= e < r.len() && (#[trigger] r@[e]).inode@ == decimal(
                    socket_list@[i].inode as nat,
                ) && r@[e].process <= p by {
            let v = socket_list@[i].inode as nat;
            assert(wanted_inode(socket_list@, v));
            let fds = processes@[p].fd_inodes@;
            assert(inode_text(fds[j]) == decimal(v));
            assert(holds_inode(fds, decimal(v)));
            let q = choose|q: int| 0 <= q < w.len() && w@[q] == v as usize;
            assert(assigned@[q]);
            let e = choose|e: int| 0 <= e < r.len() && keys[e] == q;
            assert(r@[e].inode@ == decimal(v));
            assert(is_first_holder(processes@, r@[e].process as int, r@[e].inode@));
        }
    }
    r
}

} // verus!
