use socketutils::socketinfo::linuxsocket::{SocketInfo};
use socketutils::socketinfo::socketprocessinfo::ProcessInfo;
use socketutils::socketinfo::socketprocessinfo_builder::{
    get_processes_info, get_processinfo_for_inode, get_running_processes, has_inode,
    make_process_info, ProcessFds,
};

fn strings(v: &[&str]) -> Vec<String> {
    v.iter().map(|s| s.to_string()).collect()
}

fn process(pid: &str, fds: Vec<Option<u64>>) -> ProcessFds {
    ProcessFds { pid: pid.to_string(), fd_inodes: fds }
}

fn socket(inode: usize) -> SocketInfo {
    SocketInfo { inode, ..SocketInfo::default() }
}

#[test]
fn running_processes_are_numeric_entries() {
    let entries = strings(&["1", "self", "42", "+7", "-3", "sys", "1000"]);
    assert_eq!(get_running_processes(&entries), strings(&["1", "42", "+7", "1000"]));
    assert_eq!(get_running_processes(&Vec::new()), Vec::<String>::new());
}

#[test]
fn has_inode_wants_exactly_one_entry() {
    let five = String::from("5");
    assert!(has_inode(&vec![Some(5)], &five));
    assert!(has_inode(&vec![None, Some(7), Some(5)], &five));
    assert!(!has_inode(&vec![Some(5), None, Some(5)], &five));
    assert!(!has_inode(&vec![Some(55), Some(50)], &five));
    assert!(!has_inode(&vec![], &five));
    // an entry whose metadata could not be read compares as the empty text
    assert!(has_inode(&vec![None, Some(1)], &String::new()));
}

#[test]
fn first_process_holding_inode() {
    let processes = vec![
        process("10", vec![Some(1), Some(2)]),
        process("20", vec![Some(300), Some(300)]),
        process("30", vec![Some(300)]),
        process("40", vec![Some(300)]),
    ];
    assert_eq!(get_processinfo_for_inode(300, &processes), Some(2));
    assert_eq!(get_processinfo_for_inode(2, &processes), Some(0));
    assert_eq!(get_processinfo_for_inode(4, &processes), None);
    assert_eq!(ProcessInfo::builder(300).build(&processes), Some(2));
}

#[test]
fn processes_info_maps_each_inode_to_its_first_holder() {
    let sockets = vec![socket(0), socket(100), socket(200), socket(100), socket(2), socket(999)];
    let processes = vec![
        process("7", vec![Some(200), None]),
        process("8", vec![Some(100), Some(200), Some(100), Some(2)]),
        process("9", vec![Some(100)]),
    ];
    let mut owners: Vec<(String, usize)> = get_processes_info(&sockets, &processes)
        .into_iter()
        .map(|o| (o.inode, o.process))
        .collect();
    owners.sort();
    assert_eq!(owners, vec![(String::from("100"), 1), (String::from("200"), 0)]);
}

#[test]
fn process_info_from_pid_text() {
    let info = make_process_info(&String::from("4242"), String::from("sshd -D"));
    assert_eq!(info, ProcessInfo { pid: 4242, ppid: None, process_cmdline: String::from("sshd -D") });
    assert_eq!(ProcessInfo::default().pid, 0);
}
