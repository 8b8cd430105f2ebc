use std::collections::HashMap;
use std::sync::{Arc, Mutex};

use hobbes_kv::clock::now_micros;
use hobbes_kv::engine::{respond, Engine};
use hobbes_kv::error::{HobbesError, Result};
use hobbes_kv::layout::{check_bitcask_root, check_sled_root, engine_kind, EngineKind};
use hobbes_kv::protocol::{
    frame_request, get_command, get_reply, invalid_reply, parse_length_line, parse_request,
    remove_command, remove_reply, set_command, set_reply, split_lines, Request,
};
use hobbes_kv::thread_pool::{RayonThreadPool, ThreadPool};

#[derive(Clone, Default)]
struct MemEngine {
    map: Arc<Mutex<HashMap<String, String>>>,
}

impl Engine for MemEngine {
    fn set(&self, key: String, value: String) -> Result<()> {
        self.map.lock().unwrap().insert(key, value);
        Ok(())
    }
    fn get(&self, key: String) -> Result<Option<String>> {
        Ok(self.map.lock().unwrap().get(&key).cloned())
    }
    fn remove(&self, key: String) -> Result<()> {
        match self.map.lock().unwrap().remove(&key) {
            Some(_) => Ok(()),
            None => Err(HobbesError::KeyNotFoundError),
        }
    }
}

/// What a server does with the bytes a client sends.
fn serve(store: &MemEngine, wire: &str) -> String {
    let (line, payload) = wire.split_at(wire.find("\r\n").unwrap() + 2);
    let n = parse_length_line(line).unwrap();
    assert_eq!(n, payload.len());
    let req = parse_request(payload.as_bytes()).unwrap();
    respond(store, req).unwrap()
}

#[test]
fn server_get_set_rm_replies() {
    let store = MemEngine::default();
    assert_eq!(serve(&store, &frame_request(&set_command("foo", "bar"))), "set successful");
    assert_eq!(serve(&store, &frame_request(&get_command("foo"))), "bar");
    assert_eq!(serve(&store, &frame_request(&remove_command("foo"))), "Success");
    let failing = parse_request(b"RM\r\nfoo\r\n").unwrap();
    assert_eq!(respond(&store, failing), Ok("Key not found".to_string()));
    assert_eq!(serve(&store, &frame_request(&remove_command("foo"))), "Key not found");
    assert_eq!(serve(&store, &frame_request(&get_command("foo"))), "Key not found");
    assert_eq!(serve(&store, "6\r\nPING\r\n"), "Invalid command");
}

#[test]
fn frames_and_commands() {
    assert_eq!(get_command("k"), "GET\r\nk\r\n");
    assert_eq!(set_command("k", "v"), "SET\r\nk\r\nv\r\n");
    assert_eq!(remove_command("k"), "RM\r\nk\r\n");
    assert_eq!(frame_request("GET\r\nk\r\n"), "8\r\nGET\r\nk\r\n");
    assert_eq!(frame_request("é"), "2\r\né");
}

#[test]
fn length_line() {
    assert_eq!(parse_length_line("12\r\n"), Some(12));
    assert_eq!(parse_length_line("12\n"), None);
    assert_eq!(parse_length_line("\r\n"), None);
    assert_eq!(parse_length_line("1x\r\n"), None);
}

#[test]
fn split_on_crlf() {
    let parts = split_lines(b"GET\r\nk\r\n");
    assert_eq!(parts, vec![b"GET".to_vec(), b"k".to_vec(), Vec::new()]);
    let parts = split_lines(b"a\r\r\nb");
    assert_eq!(parts, vec![b"a\r".to_vec(), b"b".to_vec()]);
    assert_eq!(split_lines(b""), vec![Vec::<u8>::new()]);
}

#[test]
fn request_operands_are_trimmed() {
    match parse_request(b"SET\r\n  key \r\n\tvalue\r\n").unwrap() {
        Request::Store(k, v) => {
            assert_eq!(k, "key");
            assert_eq!(v, "value");
        }
        other => panic!("unexpected request {other:?}"),
    }
}

#[test]
fn request_errors() {
    assert!(matches!(parse_request(b"GET"), Err(HobbesError::CliError(_))));
    assert!(matches!(parse_request(b"SET\r\nk"), Err(HobbesError::CliError(_))));
    assert!(matches!(parse_request(b"RM"), Err(HobbesError::CliError(_))));
    assert!(matches!(parse_request(b"GET\r\n\xff\r\n"), Err(HobbesError::NetworkError(_))));
    match parse_request(b"get\r\nk\r\n").unwrap() {
        Request::Invalid(op) => assert_eq!(op, "get"),
        other => panic!("unexpected request {other:?}"),
    }
}

#[test]
fn replies() {
    assert_eq!(get_reply(Some("v".to_string())), "v");
    assert_eq!(get_reply(None), "Key not found");
    assert_eq!(set_reply(), "set successful");
    assert_eq!(invalid_reply(), "Invalid command");
    assert_eq!(remove_reply(Ok(())), Ok("Success".to_string()));
    assert_eq!(remove_reply(Err(HobbesError::KeyNotFoundError)), Ok("Key not found".to_string()));
    assert_eq!(
        remove_reply(Err(HobbesError::IoError("disk".to_string()))),
        Err(HobbesError::IoError("disk".to_string()))
    );
}

#[test]
fn backend_exclusivity() {
    assert!(matches!(check_sled_root(true), Err(HobbesError::BackendConflictError(_))));
    assert_eq!(check_sled_root(false), Ok(()));
    assert!(matches!(check_bitcask_root(false, true), Err(HobbesError::BackendConflictError(_))));
    assert!(matches!(check_bitcask_root(true, true), Err(HobbesError::BackendConflictError(_))));
    assert!(matches!(check_bitcask_root(true, false), Err(HobbesError::InvalidPathError(_))));
    assert_eq!(check_bitcask_root(false, false), Ok(()));
}

#[test]
fn engine_names() {
    assert_eq!(engine_kind("bitcask"), Ok(EngineKind::Bitcask));
    assert_eq!(engine_kind("sled"), Ok(EngineKind::Sled));
    assert!(matches!(engine_kind("hobbes"), Err(HobbesError::CliError(_))));
}

#[test]
fn clock_reads_current_time() {
    // 2020-01-01 in microseconds since the epoch
    assert!(now_micros() > 1_577_836_800_000_000);
}

#[test]
fn rayon_pool_accepts_jobs() {
    let pool = RayonThreadPool::new(0).unwrap();
    assert_eq!(pool.spawn(|| {}), Ok(()));
}
