use kvs::log_files::{list_log_generations, log_file_generation, log_file_name};
use kvs::store::next_log_generation;
use kvs::{Command, CommandPos, KvStore, KvsClient, KvsError, KvsServer, SledKvsEngine};

fn s(text: &str) -> String {
    text.to_string()
}

#[test]
fn command_constructors_build_their_variants() {
    assert_eq!(Command::set(s("a"), s("1")), Command::Put { key: s("a"), value: s("1") });
    assert_eq!(Command::get(s("a")), Command::Get { key: s("a") });
    assert_eq!(Command::rm(s("a")), Command::Rm { key: s("a") });
}

#[test]
fn error_messages() {
    assert_eq!(KvsError::KeyNotFound.to_string(), "Key not found");
    assert_eq!(KvsError::UnexpectedCommandType.to_string(), "Unexpected command type");
}

#[test]
fn unit_types_exist() {
    let _client = KvsClient {};
    let _server = KvsServer {};
    let _engine = SledKvsEngine {};
}

#[test]
fn generation_of_plain_log_names() {
    assert_eq!(log_file_generation("5.log"), Some(5));
    assert_eq!(log_file_generation("0.log"), Some(0));
    assert_eq!(log_file_generation("007.log"), Some(7));
    assert_eq!(log_file_generation("1234.log"), Some(1234));
}

#[test]
fn generation_accepts_plus_sign_and_repeated_suffix() {
    assert_eq!(log_file_generation("+7.log"), Some(7));
    assert_eq!(log_file_generation("12.log.log"), Some(12));
}

#[test]
fn generation_limits_of_u64() {
    assert_eq!(log_file_generation("18446744073709551615.log"), Some(u64::MAX));
    assert_eq!(log_file_generation("18446744073709551616.log"), None);
    assert_eq!(log_file_generation("99999999999999999999.log"), None);
}

#[test]
fn generation_rejects_other_names() {
    assert_eq!(log_file_generation(".log"), None);
    assert_eq!(log_file_generation("..log"), None);
    assert_eq!(log_file_generation("a.log"), None);
    assert_eq!(log_file_generation("5.txt"), None);
    assert_eq!(log_file_generation("5"), None);
    assert_eq!(log_file_generation("-1.log"), None);
    assert_eq!(log_file_generation("+.log"), None);
    assert_eq!(log_file_generation("++1.log"), None);
    assert_eq!(log_file_generation("1 .log"), None);
    assert_eq!(log_file_generation("5.LOG"), None);
    assert_eq!(log_file_generation(""), None);
}

#[test]
fn log_file_names() {
    assert_eq!(log_file_name(0), "0.log");
    assert_eq!(log_file_name(7), "7.log");
    assert_eq!(log_file_name(10), "10.log");
    assert_eq!(log_file_name(1234), "1234.log");
    assert_eq!(log_file_name(u64::MAX), "18446744073709551615.log");
}

#[test]
fn log_file_name_round_trip() {
    for g in [0u64, 1, 9, 10, 99, 100, 4096, 1_000_000_007, u64::MAX - 1, u64::MAX] {
        assert_eq!(log_file_generation(&log_file_name(g)), Some(g));
    }
}

#[test]
fn listing_sorts_and_filters() {
    let names = vec![
        s("10.log"),
        s("notes.txt"),
        s("2.log"),
        s("kvs_rt.log"),
        s("7.log"),
        s("2.log.log"),
        s("1.log"),
    ];
    assert_eq!(list_log_generations(&names), vec![1, 2, 2, 7, 10]);
}

#[test]
fn listing_of_nothing() {
    assert_eq!(list_log_generations(&Vec::new()), Vec::<u64>::new());
    assert_eq!(list_log_generations(&vec![s("a"), s("b.log")]), Vec::<u64>::new());
}

fn empty_store(generations: &Vec<u64>) -> KvStore {
    KvStore::open(generations, &Vec::new(), 0)
}

fn pos(current_gen: u64, pos: u64, len: u64) -> CommandPos {
    CommandPos { current_gen, pos, len }
}

#[test]
fn open_starts_after_newest_generation() {
    assert_eq!(empty_store(&Vec::new()).current_generation(), 1);
    assert_eq!(empty_store(&vec![1, 2, 5]).current_generation(), 6);
    assert_eq!(empty_store(&vec![0]).current_generation(), 1);
    assert_eq!(next_log_generation(&vec![3, 4]), 5);
    assert_eq!(next_log_generation(&Vec::new()), 1);
}

#[test]
fn open_writes_fresh_generation() {
    let names = vec![s("3.log"), s("9.log"), s("4.log")];
    let gens = list_log_generations(&names);
    let store = empty_store(&gens);
    for g in gens {
        assert!(g < store.current_generation());
    }
    assert_eq!(store.current_generation(), 10);
}

#[test]
fn open_keeps_writer_start() {
    let store = KvStore::open(&vec![1], &Vec::new(), 17);
    assert_eq!(store.writer_position(), 17);
    assert_eq!(store.position(&s("a")), None);
}

#[test]
fn open_rebuilds_index_from_log() {
    let records = vec![
        (Command::set(s("a"), s("1")), pos(1, 0, 10)),
        (Command::set(s("b"), s("2")), pos(1, 10, 10)),
        (Command::set(s("c"), s("3")), pos(1, 20, 10)),
        (Command::rm(s("a")), pos(2, 0, 8)),
        (Command::set(s("b"), s("4")), pos(2, 8, 10)),
    ];
    let store = KvStore::open(&vec![1, 2], &records, 0);
    assert_eq!(store.current_generation(), 3);
    assert_eq!(store.position(&s("a")), None);
    assert_eq!(store.position(&s("b")), Some(pos(2, 8, 10)));
    assert_eq!(store.position(&s("c")), Some(pos(1, 20, 10)));
    assert_eq!(store.get(&s("a"), None), Ok(None));
    assert_eq!(store.get(&s("b"), Some(Command::set(s("b"), s("4")))), Ok(Some(s("4"))));
}

#[test]
fn open_rewrite_after_removal() {
    let records = vec![
        (Command::set(s("a"), s("1")), pos(1, 0, 10)),
        (Command::rm(s("a")), pos(1, 10, 8)),
        (Command::set(s("a"), s("2")), pos(1, 18, 10)),
    ];
    let store = KvStore::open(&vec![1], &records, 0);
    assert_eq!(store.position(&s("a")), Some(pos(1, 18, 10)));
}

#[test]
fn open_passes_over_read_commands() {
    let records = vec![
        (Command::set(s("a"), s("1")), pos(1, 0, 10)),
        (Command::get(s("a")), pos(1, 10, 10)),
        (Command::get(s("b")), pos(1, 20, 10)),
    ];
    let store = KvStore::open(&vec![1], &records, 0);
    assert_eq!(store.current_generation(), 2);
    assert_eq!(store.position(&s("a")), Some(pos(1, 0, 10)));
    assert_eq!(store.position(&s("b")), None);
}

#[test]
fn set_records_position() {
    let mut store = empty_store(&vec![4]);
    assert_eq!(store.position(&s("a")), None);
    store.set(s("a"), s("1"), 30);
    store.set(s("b"), s("2"), 22);
    assert_eq!(store.position(&s("a")), Some(pos(5, 0, 30)));
    assert_eq!(store.position(&s("b")), Some(pos(5, 30, 22)));
    assert_eq!(store.writer_position(), 52);
    assert_eq!(store.position(&s("c")), None);
    assert_eq!(store.current_generation(), 5);
}

#[test]
fn set_back_to_back() {
    let mut store = KvStore::open(&vec![1], &Vec::new(), 100);
    store.set(s("x"), s("1"), 7);
    store.set(s("y"), s("2"), 9);
    let x = store.position(&s("x")).unwrap();
    let y = store.position(&s("y")).unwrap();
    assert_eq!(y.pos, x.pos + x.len);
    assert_eq!(x.current_gen, y.current_gen);
    assert_eq!(store.writer_position(), y.pos + y.len);
}

#[test]
fn set_last_write_wins() {
    let mut store = empty_store(&Vec::new());
    store.set(s("k"), s("1"), 20);
    let first = store.position(&s("k")).unwrap();
    store.set(s("k"), s("2"), 20);
    assert_eq!(store.position(&s("k")), Some(pos(1, first.pos + first.len, 20)));
    assert_eq!(store.get(&s("k"), Some(Command::set(s("k"), s("2")))), Ok(Some(s("2"))));
}

#[test]
fn command_pos_from_range() {
    assert_eq!(CommandPos::from((3, 10..25)), pos(3, 10, 15));
    assert_eq!(CommandPos::from((1, 4..4)), pos(1, 4, 0));
}

#[test]
fn get_of_absent_key_is_none() {
    let store = empty_store(&Vec::new());
    assert_eq!(store.get(&s("k"), None), Ok(None));
    assert_eq!(store.get(&s("k"), Some(Command::set(s("k"), s("v")))), Ok(None));
}

#[test]
fn get_of_corrupt_record_is_unexpected() {
    let mut store = empty_store(&Vec::new());
    store.set(s("k"), s("v"), 20);
    assert_eq!(store.get(&s("k"), Some(Command::get(s("k")))), Err(KvsError::UnexpectedCommandType));
    assert_eq!(store.get(&s("k"), Some(Command::rm(s("k")))), Err(KvsError::UnexpectedCommandType));
    assert_eq!(
        store.get(&s("k"), Some(Command::set(s("j"), s("v")))),
        Err(KvsError::UnexpectedCommandType)
    );
    assert_eq!(store.get(&s("k"), None), Err(KvsError::UnexpectedCommandType));
}

/// A log kept in memory, standing for the engine's files.
struct MemLog(Vec<(CommandPos, String, String)>);

impl MemLog {
    fn set(&mut self, store: &mut KvStore, key: &str, value: &str) {
        let written = (key.len() + value.len() + 10) as u64;
        let at = pos(store.current_generation(), store.writer_position(), written);
        self.0.push((at, s(key), s(value)));
        store.set(s(key), s(value), written);
    }

    fn read(&self, store: &KvStore, key: &str) -> Option<Command> {
        let at = store.position(&s(key))?;
        self.0
            .iter()
            .find(|(p, _, _)| *p == at)
            .map(|(_, k, v)| Command::set(k.clone(), v.clone()))
    }
}

#[test]
fn read_after_write_with_other_writes_between() {
    let mut store = empty_store(&vec![1, 2]);
    let mut log = MemLog(Vec::new());
    log.set(&mut store, "k", "v1");
    log.set(&mut store, "j", "w");
    log.set(&mut store, "k", "v2");
    log.set(&mut store, "other", "x");
    let logged = log.read(&store, "k");
    assert_eq!(store.get(&s("k"), logged), Ok(Some(s("v2"))));
    let logged = log.read(&store, "j");
    assert_eq!(store.get(&s("j"), logged), Ok(Some(s("w"))));
}

#[test]
fn remove_of_absent_key_is_key_not_found() {
    let mut store = empty_store(&Vec::new());
    store.set(s("other"), s("v"), 20);
    assert_eq!(store.remove(s("k"), 15), Err(KvsError::KeyNotFound));
    assert_eq!(store.writer_position(), 20);
    assert_eq!(store.position(&s("other")), Some(pos(1, 0, 20)));
}

#[test]
fn remove_of_removed_key_is_key_not_found() {
    let mut store = empty_store(&Vec::new());
    store.set(s("k"), s("v"), 20);
    assert_eq!(store.remove(s("k"), 15), Ok(()));
    assert_eq!(store.remove(s("k"), 15), Err(KvsError::KeyNotFound));
    assert_eq!(store.writer_position(), 35);
}

#[test]
fn remove_drops_live_key() {
    let mut store = empty_store(&Vec::new());
    store.set(s("k"), s("v"), 20);
    store.set(s("j"), s("w"), 20);
    assert_eq!(store.remove(s("k"), 15), Ok(()));
    assert_eq!(store.position(&s("k")), None);
    assert_eq!(store.position(&s("j")), Some(pos(1, 20, 20)));
    assert_eq!(store.writer_position(), 55);
    assert_eq!(store.get(&s("k"), Some(Command::set(s("k"), s("v")))), Ok(None));
}

/// The records a session appends, kept to open the store again over them.
struct Session(Vec<(Command, CommandPos)>);

impl Session {
    fn set(&mut self, store: &mut KvStore, key: &str, value: &str) {
        let written = (key.len() + value.len() + 20) as u64;
        let at = pos(store.current_generation(), store.writer_position(), written);
        self.0.push((Command::set(s(key), s(value)), at));
        store.set(s(key), s(value), written);
    }

    fn remove(&mut self, store: &mut KvStore, key: &str) -> Result<(), KvsError> {
        let written = (key.len() + 12) as u64;
        let at = pos(store.current_generation(), store.writer_position(), written);
        let r = store.remove(s(key), written);
        if r.is_ok() {
            self.0.push((Command::rm(s(key)), at));
        }
        r
    }

    fn read(&self, store: &KvStore, key: &str) -> Option<Command> {
        let at = store.position(&s(key))?;
        self.0.iter().find(|(_, p)| *p == at).map(|(cmd, _)| match cmd {
            Command::Put { key, value } => Command::set(key.clone(), value.clone()),
            Command::Get { key } => Command::get(key.clone()),
            Command::Rm { key } => Command::rm(key.clone()),
        })
    }
}

#[test]
fn reopen_reads_back_session() {
    let mut gens: Vec<u64> = Vec::new();
    let mut log = Session(Vec::new());
    let mut first = KvStore::open(&gens, &log.0, 0);
    log.set(&mut first, "k", "v");
    log.set(&mut first, "gone", "x");
    assert_eq!(log.remove(&mut first, "gone"), Ok(()));
    assert_eq!(log.remove(&mut first, "never"), Err(KvsError::KeyNotFound));
    gens.push(first.current_generation());
    let second = KvStore::open(&gens, &log.0, 0);
    assert_eq!(second.current_generation(), first.current_generation() + 1);
    assert_eq!(second.position(&s("k")), first.position(&s("k")));
    assert_eq!(second.get(&s("k"), log.read(&second, "k")), Ok(Some(s("v"))));
    assert_eq!(second.get(&s("gone"), log.read(&second, "gone")), Ok(None));
}

#[test]
fn read_latest_after_writes_and_removals() {
    let mut log = Session(Vec::new());
    let mut store = KvStore::open(&Vec::new(), &Vec::new(), 0);
    log.set(&mut store, "k", "1");
    log.set(&mut store, "a", "x");
    assert_eq!(log.remove(&mut store, "a"), Ok(()));
    log.set(&mut store, "b", "y");
    assert_eq!(store.get(&s("k"), log.read(&store, "k")), Ok(Some(s("1"))));
    log.set(&mut store, "k", "2");
    assert_eq!(log.remove(&mut store, "b"), Ok(()));
    assert_eq!(store.get(&s("k"), log.read(&store, "k")), Ok(Some(s("2"))));
    assert_eq!(store.get(&s("b"), log.read(&store, "b")), Ok(None));
}
