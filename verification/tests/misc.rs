//! Arguments, the control protocol, the terminal and diagnostics.
use w_vmm::cli::{block_size, disk_paths, ArgumentError};
use w_vmm::disks::Disks;
use w_vmm::error::{diagnostic, Error, Failure, StorageError};
use w_vmm::protocol::{
    listening, Input, Line, Listening, ProtocolError, Request, Shown, Work, CLIENTS, LIMIT,
};
use w_vmm::serial::{IoFault, IoKind};
use w_vmm::terminal::{notified, stop_key, woken, Binding, Notice, TerminalError, Wake};

fn list(disks: Disks<String>) -> Vec<(String, String)> {
    disks.into_list()
}

fn strings(values: &[&str]) -> Vec<String> {
    values.iter().map(|v| v.to_string()).collect()
}

#[test]
fn servers_bound_their_clients() {
    assert_eq!(CLIENTS, 16);
    assert_eq!(listening(false, 0), Listening::Accept);
    assert_eq!(listening(false, CLIENTS - 1), Listening::Accept);
    assert_eq!(listening(false, CLIENTS), Listening::Rest);
    assert_eq!(listening(true, CLIENTS), Listening::Leave);
}

#[test]
fn block_size_cli_requires_capacity_only_when_explicit() {
    assert!(block_size(None, None).is_ok());
    assert!(matches!(block_size(None, Some(2)), Err(ArgumentError::MissingCapacity)));
    assert_eq!(block_size(Some(128), None).unwrap(), 2);
    assert_eq!(block_size(Some(128), Some(4)).unwrap(), 4);
}

#[test]
fn named_disks_and_legacy_path() {
    let disks = list(disk_paths(strings(&["sdb=b.qcow2", "sda=a.qcow2"])).unwrap());
    assert_eq!(disks.iter().map(|d| d.0.as_str()).collect::<Vec<_>>(), ["sda", "sdb"]);
    let legacy = list(disk_paths(strings(&["a.qcow2"])).unwrap());
    assert_eq!(legacy, [("disk0".to_owned(), "a.qcow2".to_owned())]);
    assert!(disk_paths(strings(&["sda=a", "sda=b"])).is_err());
    assert!(disk_paths(strings(&["sda="])).is_err());
}

#[test]
fn disk_arguments_split_at_the_first_sign() {
    let disks = list(disk_paths(strings(&["x=a=b", "plain", "=nameless"])).unwrap());
    assert_eq!(
        disks,
        [
            (String::new(), "nameless".to_owned()),
            ("disk1".to_owned(), "plain".to_owned()),
            ("x".to_owned(), "a=b".to_owned()),
        ]
    );
    let many: Vec<String> = (0..12).map(|i| format!("p{i}")).collect();
    let disks = list(disk_paths(many).unwrap());
    assert_eq!(disks.len(), 12);
    assert_eq!(disks[2], ("disk10".to_owned(), "p10".to_owned()));
    assert!(matches!(
        disk_paths(strings(&["disk1=a", "b"])),
        Err(ArgumentError::DuplicateDisk { name }) if name == "disk1"
    ));
    assert!(matches!(
        disk_paths(strings(&["a", ""])),
        Err(ArgumentError::EmptyDiskPath { name }) if name == "disk1"
    ));
}

#[test]
fn disks_are_kept_in_name_order() {
    let mut disks: Disks<u8> = Disks::new();
    for (name, value) in [("sdb", 2), ("sda", 1), ("sdaa", 3), ("S", 4)] {
        assert_eq!(disks.insert(name.to_owned(), value), None);
    }
    assert_eq!(disks.insert("sda".to_owned(), 9), Some(1));
    assert_eq!(disks.len(), 4);
    let names: Vec<_> = disks.into_list();
    assert_eq!(
        names,
        [
            ("S".to_owned(), 4),
            ("sda".to_owned(), 9),
            ("sdaa".to_owned(), 3),
            ("sdb".to_owned(), 2),
        ]
    );
}

fn read(text: &[u8]) -> Result<Option<Vec<u8>>, ProtocolError> {
    let mut line = Line::new();
    for byte in text {
        if line.take(Input::Byte(*byte), "message", "newline")? {
            return Ok(Some(line.into_data()));
        }
    }
    Ok(None)
}

#[test]
fn lines_end_and_are_bounded() {
    assert_eq!(read(b"{\"command\":\"stop\"}\nrest").unwrap().unwrap(), b"{\"command\":\"stop\"}");
    assert_eq!(read(b"\n").unwrap().unwrap(), b"");
    assert!(read(b"abc").unwrap().is_none());
    let mut longest = vec![b'x'; LIMIT];
    longest.push(b'\n');
    assert_eq!(read(&longest).unwrap().unwrap().len(), LIMIT);
    assert!(matches!(
        read(&vec![b'x'; LIMIT + 1]),
        Err(ProtocolError::TooLong { kind: "message", limit: 4096 })
    ));
    let mut line = Line::new();
    assert!(!line.take(Input::Interrupted, "message", "newline").unwrap());
    assert!(matches!(
        line.take(Input::Closed, "message", "newline"),
        Err(ProtocolError::Disconnected { expected: "newline" })
    ));
    assert!(matches!(line.take(Input::Expired, "message", "newline"), Err(ProtocolError::Timeout)));
    let failure = Failure { chain: strings(&["reset"]) };
    assert!(matches!(
        line.take(Input::Failed(failure), "message", "newline"),
        Err(ProtocolError::Io(f)) if f.chain == ["reset"]
    ));
}

#[test]
fn requests_are_planned() {
    assert_eq!(Request::Pause.plan(), (Work::Pause, Shown::Vm));
    assert_eq!(Request::Resume.plan(), (Work::Resume, Shown::Vm));
    assert_eq!(Request::Stop.plan(), (Work::Stop, Shown::Vm));
    assert_eq!(Request::Status.plan(), (Work::Nothing, Shown::Vm));
    assert_eq!(Request::MemoryStatus.plan(), (Work::Nothing, Shown::Memory));
    assert_eq!(Request::MemorySet { requested_mib: 6 }.plan(), (Work::Target(6), Shown::Memory));
}

#[test]
fn terminal_rules() {
    assert_eq!(stop_key(b"abc"), None);
    assert_eq!(stop_key(b"a\x1db\x1d"), Some(1));
    let fault = |kind| Err(IoFault { kind, source: Failure { chain: Vec::new() } });
    assert!(notified(Ok(())).is_ok());
    assert!(notified(fault(IoKind::WouldBlock)).is_ok());
    assert!(notified(fault(IoKind::BrokenPipe)).is_ok());
    assert!(notified(fault(IoKind::Other)).is_err());
    assert!(notified(fault(IoKind::Interrupted)).is_err());
    assert_eq!(woken(Notice::Interrupted, false), Wake::Again);
    assert_eq!(woken(Notice::Closed, false), Wake::Leave);
    assert_eq!(woken(Notice::Failed, false), Wake::Leave);
    assert_eq!(woken(Notice::Byte, false), Wake::Stop);
    assert_eq!(woken(Notice::Byte, true), Wake::Leave);
    let mut binding = Binding::new();
    binding.bind().unwrap();
    assert!(matches!(binding.bind(), Err(TerminalError::AlreadyBound)));
}

#[test]
fn errors_cross_threads_and_keep_backend_causes() {
    fn thread_safe<T: Send + Sync + 'static>() {}
    thread_safe::<Error>();
    let error = Error::Storage(StorageError::Backend(Failure {
        chain: strings(&["backend flush", "host failure"]),
    }));
    assert!(matches!(
        &error,
        Error::Storage(StorageError::Backend(source))
            if diagnostic(source) == "backend flush: host failure"
    ));
}

#[test]
fn diagnostics_tell_each_cause_once() {
    let render = |chain: &[&str]| diagnostic(&Failure { chain: strings(chain) });
    assert_eq!(render(&["open: denied", "denied"]), "open: denied");
    assert_eq!(render(&["a", "b", "c"]), "a: b: c");
    assert_eq!(render(&["a", "é", "é"]), "a: é");
    assert_eq!(render(&["a"]), "a");
    assert_eq!(render(&[]), "");
}
