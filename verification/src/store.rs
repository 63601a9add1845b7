//! The engine's state and decisions: the in-memory index from each live key
//! to the log position of its latest write, the log that the index points
//! into, the generation of the log file that the engine writes and the
//! position of its writer.
use vstd::prelude::*;
use crate::command::Command;
use crate::error::KvsError;

verus! {

/// Where a command stands in the log: the generation of its file, the offset
/// of its first byte and its length in bytes.
#[derive(Debug, Clone, Copy, PartialEq, Eq, Structural)]
pub struct CommandPos {
    pub current_gen: u64,
    pub pos: u64,
    pub len: u64,
}

impl CommandPos {
    /// The position of the bytes `range` in the log file of generation `entry.0`.
    pub fn from(entry: (u64, core::ops::Range<u64>)) -> (p: CommandPos)
        requires
            entry.1.start <= entry.1.end,
        ensures
            p.current_gen == entry.0,
            p.pos == entry.1.start,
            p.len == entry.1.end - entry.1.start,
            p.pos + p.len == entry.1.end,
    {
        let (current_gen, range) = entry;
        CommandPos { current_gen, pos: range.start, len: range.end - range.start }
    }
}

/// The generation that an engine opened over log files of generations
/// `gens` (in ascending order) writes to.
pub open spec fn next_generation(gens: Seq<u64>) -> int {
    if gens.len() == 0 {
        1
    } else {
        gens.last() + 1
    }
}

/// The generation after the newest of `generations` (ascending), or 1
/// where there is none: the generation of the log file an engine opened
/// over them writes.
pub fn next_log_generation(generations: &Vec<u64>) -> (g: u64)
    requires
        generations.len() == 0 || generations@.last() < u64::MAX,
    ensures
        g == next_generation(generations@),
{
    if generations.len() == 0 {
        1
    } else {
        generations[generations.len() - 1] + 1
    }
}

/// The abstract state of an engine.
pub struct StoreView {
    /// For each live key, the log position of its latest write.
    pub index: Map<Seq<char>, CommandPos>,
    /// The commands in the log, by position.
    pub log: Map<CommandPos, Command>,
    /// The generation of the log file that the engine writes to.
    pub current_gen: u64,
    /// The offset in that file at which the next command is written.
    pub writer_pos: u64,
}

/// `cmd` writes a value for the key `k`.
pub open spec fn is_put_of(cmd: Command, k: Seq<char>) -> bool {
    cmd matches Command::Put { key, .. } && key@ == k
}

/// The value that a write command holds.
pub open spec fn value_of(cmd: Command) -> Seq<char> {
    match cmd {
        Command::Put { value, .. } => value@,
        _ => Seq::empty(),
    }
}

/// The index points at writes of the keys it is indexed by, and nothing in
/// the log lies at or after the writer's position in the file it writes.
pub open spec fn consistent(s: StoreView) -> bool {
    &&& forall|k: Seq<char>| #[trigger]
        s.index.contains_key(k) ==> s.log.contains_key(s.index[k]) && is_put_of(
            s.log[s.index[k]],
            k,
        )
    &&& forall|p: CommandPos| #[trigger]
        s.log.contains_key(p) && p.current_gen == s.current_gen ==> p.pos + p.len <= s.writer_pos
}

/// The value of each live key: the value of its latest write.
pub open spec fn contents(s: StoreView) -> Map<Seq<char>, Seq<char>> {
    Map::new(|k: Seq<char>| s.index.contains_key(k), |k: Seq<char>| value_of(s.log[s.index[k]]))
}

/// A command of `written` bytes can be appended at the writer's position.
pub open spec fn can_append(s: StoreView, written: u64) -> bool {
    written > 0 && s.writer_pos + written <= u64::MAX
}

/// The position of a command of `written` bytes appended at the writer.
pub open spec fn appended_at(s: StoreView, written: u64) -> CommandPos {
    CommandPos { current_gen: s.current_gen, pos: s.writer_pos, len: written }
}

/// The state after the command setting `key` to `value`, `written` bytes
/// long, is appended to the log.
pub open spec fn set_spec(s: StoreView, key: String, value: String, written: u64) -> StoreView {
    let p = appended_at(s, written);
    StoreView {
        index: s.index.insert(key@, p),
        log: s.log.insert(p, Command::Put { key, value }),
        current_gen: s.current_gen,
        writer_pos: (s.writer_pos + written) as u64,
    }
}

/// The outcome of removing `key` with a removal command `written` bytes
/// long: a key that is not live is refused and nothing is written.
pub open spec fn remove_spec(s: StoreView, key: String, written: u64) -> Result<StoreView, KvsError> {
    if s.index.contains_key(key@) {
        let p = appended_at(s, written);
        Ok(
            StoreView {
                index: s.index.remove(key@),
                log: s.log.insert(p, Command::Rm { key }),
                current_gen: s.current_gen,
                writer_pos: (s.writer_pos + written) as u64,
            },
        )
    } else {
        Err(KvsError::KeyNotFound)
    }
}

/// What a read of `k` answers, where `logged` is the command read from the
/// log at the key's indexed position: nothing for a key that is not live,
/// the value of a write of `k`, and `UnexpectedCommandType` for anything
/// else found there.
pub open spec fn read_answer(s: StoreView, k: Seq<char>, logged: Option<Command>) -> Result<
    Option<String>,
    KvsError,
> {
    if !s.index.contains_key(k) {
        Ok(None)
    } else {
        match logged {
            Some(Command::Put { key, value }) => if key@ == k {
                Ok(Some(value))
            } else {
                Err(KvsError::UnexpectedCommandType)
            },
            _ => Err(KvsError::UnexpectedCommandType),
        }
    }
}

/// The index and the log after the record `rec` is replayed over `state`:
/// a write points its key at itself, a removal drops its key, a read
/// changes no key. Every record joins the log.
pub open spec fn replay_step(
    state: (Map<Seq<char>, CommandPos>, Map<CommandPos, Command>),
    rec: (Command, CommandPos),
) -> (Map<Seq<char>, CommandPos>, Map<CommandPos, Command>) {
    let (index, log) = state;
    let (cmd, p) = rec;
    match cmd {
        Command::Put { key, .. } => (index.insert(key@, p), log.insert(p, cmd)),
        Command::Rm { key } => (index.remove(key@), log.insert(p, cmd)),
        Command::Get { .. } => (index, log.insert(p, cmd)),
    }
}

/// The index and the log that replaying the records `recs`, in the order of
/// the log, builds from nothing.
pub open spec fn replay(recs: Seq<(Command, CommandPos)>) -> (
    Map<Seq<char>, CommandPos>,
    Map<CommandPos, Command>,
)
    decreases recs.len(),
{
    if recs.len() == 0 {
        (Map::empty(), Map::empty())
    } else {
        replay_step(replay(recs.drop_last()), recs.last())
    }
}

/// No two records stand at the same position.
pub open spec fn distinct_positions(recs: Seq<(Command, CommandPos)>) -> bool {
    forall|i: int, j: int| 0 <= i < j < recs.len() ==> recs[i].1 != recs[j].1
}

/// The map that a list of (key, position) entries stands for.
pub open spec fn entries_map(s: Seq<(String, CommandPos)>) -> Map<Seq<char>, CommandPos>
    decreases s.len(),
{
    if s.len() == 0 {
        Map::empty()
    } else {
        entries_map(s.drop_last()).insert(s.last().0@, s.last().1)
    }
}

/// No key occurs twice among the entries.
pub open spec fn distinct_keys(s: Seq<(String, CommandPos)>) -> bool {
    forall|i: int, j: int| 0 <= i < j < s.len() ==> s[i].0@ != s[j].0@
}

proof fn lemma_entries_map(s: Seq<(String, CommandPos)>)
    requires
        distinct_keys(s),
    ensures
        forall|i: int|
            0 <= i < s.len() ==> #[trigger] entries_map(s).contains_key(s[i].0@) && entries_map(
                s,
            )[s[i].0@] == s[i].1,
        forall|k: Seq<char>|
            #[trigger] entries_map(s).contains_key(k) ==> exists|i: int|
                0 <= i < s.len() && s[i].0@ == k,
    decreases s.len(),
{
    if s.len() > 0 {
        let r = s.drop_last();
        lemma_entries_map(r);
        assert forall|i: int| 0 <= i < s.len() implies #[trigger] entries_map(s).contains_key(
            s[i].0@,
        ) && entries_map(s)[s[i].0@] == s[i].1 by {
            if i < s.len() - 1 {
                assert(r[i] == s[i]);
                assert(s[i].0@ != s[s.len() - 1].0@);
                assert(entries_map(r).contains_key(r[i].0@));
            }
        }
        assert forall|k: Seq<char>| #[trigger] entries_map(s).contains_key(k) implies exists|i: int|
            0 <= i < s.len() && s[i].0@ == k by {
            if k != s.last().0@ {
                assert(entries_map(r).contains_key(k));
                let i = choose|i: int| 0 <= i < r.len() && r[i].0@ == k;
                assert(s[i] == r[i]);
            } else {
                assert(s[s.len() - 1].0@ == k);
            }
        }
    }
}

fn same_key(a: &String, b: &String) -> (r: bool)
    ensures
        r == (a@ == b@),
{
    *a == *b
}

fn find_key(entries: &Vec<(String, CommandPos)>, key: &String) -> (r: Option<usize>)
    requires
        distinct_keys(entries@),
    ensures
        match r {
            Some(i) => i < entries.len() && entries@[i as int].0@ == key@,
            None => !entries_map(entries@).contains_key(key@),
        },
{
    let mut i: usize = 0;
    while i < entries.len()
        invariant
            i <= entries.len(),
            forall|j: int| 0 <= j < i ==> entries@[j].0@ != key@,
        decreases entries.len() - i,
    {
        if same_key(&entries[i].0, key) {
            return Some(i);
        }
        i = i + 1;
    }
    proof {
        lemma_entries_map(entries@);
        if entries_map(entries@).contains_key(key@) {
            let j = choose|j: int| 0 <= j < entries@.len() && entries@[j].0@ == key@;
            assert(entries@[j].0@ != key@);
        }
    }
    None
}

fn index_insert(entries: &mut Vec<(String, CommandPos)>, key: String, p: CommandPos)
    requires
        distinct_keys(old(entries)@),
    ensures
        distinct_keys(final(entries)@),
        entries_map(final(entries)@) == entries_map(old(entries)@).insert(key@, p),
{
    let ghost old_entries = entries@;
    let ghost k = key@;
    proof {
        lemma_entries_map(old_entries);
    }
    match find_key(entries, &key) {
        Some(i) => {
            entries.set(i, (key, p));
            proof {
                let t = entries@;
                assert(distinct_keys(t)) by {
                    assert forall|a: int, b: int| 0 <= a < b < t.len() implies t[a].0@ != t[b].0@ by {
                        assert(t[a].0@ == old_entries[a].0@);
                        assert(t[b].0@ == old_entries[b].0@);
                    }
                }
                lemma_entries_map(t);
                let m = entries_map(old_entries).insert(k, p);
                assert forall|key2: Seq<char>| #[trigger]
                    entries_map(t).contains_key(key2) <==> m.contains_key(key2) by {
                    if entries_map(t).contains_key(key2) {
                        let j = choose|j: int| 0 <= j < t.len() && t[j].0@ == key2;
                        assert(old_entries[j].0@ == key2);
                    }
                    if m.contains_key(key2) && key2 != k {
                        let j = choose|j: int|
                            0 <= j < old_entries.len() && old_entries[j].0@ == key2;
                        assert(t[j].0@ == key2);
                    }
                    if key2 == k {
                        assert(t[i as int].0@ == key2);
                    }
                }
                assert forall|key2: Seq<char>| #[trigger]
                    entries_map(t).contains_key(key2) implies entries_map(t)[key2] == m[key2] by {
                    let j = choose|j: int| 0 <= j < t.len() && t[j].0@ == key2;
                    if j != i {
                        assert(old_entries[j] == t[j]);
                    }
                }
                assert(entries_map(t) =~= m);
            }
        },
        None => {
            entries.push((key, p));
            proof {
                let t = entries@;
                assert(t.drop_last() =~= old_entries);
                assert(distinct_keys(t)) by {
                    assert forall|a: int, b: int| 0 <= a < b < t.len() implies t[a].0@ != t[b].0@ by {
                        assert(t[a] == old_entries[a]);
                        if b < t.len() - 1 {
                            assert(t[b] == old_entries[b]);
                        } else {
                            assert(old_entries[a].0@ != k) by {
                                if old_entries[a].0@ == k {
                                    assert(entries_map(old_entries).contains_key(
                                        old_entries[a].0@,
                                    ));
                                }
                            }
                        }
                    }
                }
            }
        },
    }
}

fn index_remove(entries: &mut Vec<(String, CommandPos)>, key: &String)
    requires
        distinct_keys(old(entries)@),
    ensures
        distinct_keys(final(entries)@),
        entries_map(final(entries)@) == entries_map(old(entries)@).remove(key@),
{
    let ghost old_entries = entries@;
    let ghost k = key@;
    proof {
        lemma_entries_map(old_entries);
    }
    match find_key(entries, key) {
        Some(i) => {
            entries.remove(i);
            proof {
                let t = entries@;
                assert(t =~= old_entries.remove(i as int));
                assert(distinct_keys(t)) by {
                    assert forall|a: int, b: int| 0 <= a < b < t.len() implies t[a].0@ != t[b].0@ by {
                        let a0 = if a < i { a } else { a + 1 };
                        let b0 = if b < i { b } else { b + 1 };
                        assert(t[a] == old_entries[a0]);
                        assert(t[b] == old_entries[b0]);
                    }
                }
                lemma_entries_map(t);
                let m = entries_map(old_entries).remove(k);
                assert forall|key2: Seq<char>| #[trigger]
                    entries_map(t).contains_key(key2) <==> m.contains_key(key2) by {
                    if entries_map(t).contains_key(key2) {
                        let j = choose|j: int| 0 <= j < t.len() && t[j].0@ == key2;
                        let j0 = if j < i { j } else { j + 1 };
                        assert(t[j] == old_entries[j0]);
                        assert(j0 != i);
                        assert(old_entries[j0].0@ != old_entries[i as int].0@);
                    }
                    if m.contains_key(key2) {
                        let j0 = choose|j: int|
                            0 <= j < old_entries.len() && old_entries[j].0@ == key2;
                        assert(j0 != i);
                        let j = if j0 < i { j0 } else { j0 - 1 };
                        assert(t[j] == old_entries[j0]);
                    }
                }
                assert forall|key2: Seq<char>| #[trigger]
                    entries_map(t).contains_key(key2) implies entries_map(t)[key2] == m[key2] by {
                    let j = choose|j: int| 0 <= j < t.len() && t[j].0@ == key2;
                    let j0 = if j < i { j } else { j + 1 };
                    assert(t[j] == old_entries[j0]);
                    assert(old_entries[j0].0@ != old_entries[i as int].0@);
                }
                assert(entries_map(t) =~= m);
            }
        },
        None => {
            assert(entries_map(old_entries).remove(k) =~= entries_map(old_entries));
        },
    }
}

/// Appending a write keeps the state consistent.
pub proof fn lemma_set_consistent(s: StoreView, key: String, value: String, written: u64)
    requires
        consistent(s),
        can_append(s, written),
    ensures
        consistent(set_spec(s, key, value, written)),
{
    let p = appended_at(s, written);
    let t = set_spec(s, key, value, written);
    assert(!s.log.contains_key(p));
    assert forall|k: Seq<char>| #[trigger] t.index.contains_key(k) implies t.log.contains_key(
        t.index[k],
    ) && is_put_of(t.log[t.index[k]], k) by {
        if k != key@ {
            assert(s.index.contains_key(k));
            assert(s.index[k] != p);
        }
    }
}

/// Appending a removal keeps the state consistent.
pub proof fn lemma_remove_consistent(s: StoreView, key: String, written: u64)
    requires
        consistent(s),
        s.index.contains_key(key@) ==> can_append(s, written),
    ensures
        remove_spec(s, key, written) matches Ok(t) ==> consistent(t),
{
    if s.index.contains_key(key@) {
        let p = appended_at(s, written);
        let t = remove_spec(s, key, written)->Ok_0;
        assert(!s.log.contains_key(p));
        assert forall|k: Seq<char>| #[trigger] t.index.contains_key(k) implies t.log.contains_key(
            t.index[k],
        ) && is_put_of(t.log[t.index[k]], k) by {
            assert(s.index.contains_key(k));
            assert(s.index[k] != p);
        }
    }
}

/// The state of the key/value engine that does not live in its files.
///
/// The index is a list of (key, position) entries in which no key occurs
/// twice, standing for the map that `entries_map` gives; no public function
/// shows the order of its keys. (A map of std keyed by `String` would let
/// nothing be proved of its contents.)
pub struct KvStore {
    index: Vec<(String, CommandPos)>,
    log: Ghost<Map<CommandPos, Command>>,
    current_gen: u64,
    writer_pos: u64,
}

impl View for KvStore {
    type V = StoreView;

    closed spec fn view(&self) -> StoreView {
        StoreView {
            index: entries_map(self.index@),
            log: self.log@,
            current_gen: self.current_gen,
            writer_pos: self.writer_pos,
        }
    }
}

impl KvStore {
    #[verifier::type_invariant]
    closed spec fn wf(self) -> bool {
        distinct_keys(self.index@) && consistent(self@)
    }

    /// An engine over log files of generations `generations` (ascending),
    /// whose commands, in the order of the log, are `records`, writing from
    /// `writer_start` in the file of the generation after the newest. Its
    /// index holds each key whose latest write or removal is a write, at
    /// that write's position.
    pub fn open(
        generations: &Vec<u64>,
        records: &Vec<(Command, CommandPos)>,
        writer_start: u64,
    ) -> (store: KvStore)
        requires
            generations.len() == 0 || generations@.last() < u64::MAX,
            forall|i: int|
                0 <= i < records.len() ==> #[trigger] records@[i].1.current_gen
                    < next_generation(generations@),
            distinct_positions(records@),
        ensures
            store@ == (StoreView {
                index: replay(records@).0,
                log: replay(records@).1,
                current_gen: next_generation(generations@) as u64,
                writer_pos: writer_start,
            }),
            consistent(store@),
    {
        let current_gen = next_log_generation(generations);
        let mut entries: Vec<(String, CommandPos)> = Vec::new();
        let ghost mut log: Map<CommandPos, Command> = Map::empty();
        let mut i: usize = 0;
        assert(entries@ =~= Seq::<(String, CommandPos)>::empty());
        assert(records@.subrange(0, 0) =~= Seq::<(Command, CommandPos)>::empty());
        while i < records.len()
            invariant
                i <= records.len(),
                current_gen == next_generation(generations@),
                forall|j: int|
                    0 <= j < records.len() ==> #[trigger] records@[j].1.current_gen < current_gen,
                distinct_positions(records@),
                distinct_keys(entries@),
                replay(records@.subrange(0, i as int)) == (entries_map(entries@), log),
                forall|q: CommandPos| #[trigger]
                    log.contains_key(q) ==> exists|j: int| 0 <= j < i && records@[j].1 == q,
                consistent(
                    StoreView {
                        index: entries_map(entries@),
                        log,
                        current_gen,
                        writer_pos: writer_start,
                    },
                ),
            decreases records.len() - i,
        {
            let p = records[i].1;
            let ghost prefix = records@.subrange(0, i + 1);
            assert(prefix.drop_last() =~= records@.subrange(0, i as int));
            assert(prefix.last() == records@[i as int]);
            assert(!log.contains_key(p)) by {
                if log.contains_key(p) {
                    let j = choose|j: int| 0 <= j < i && records@[j].1 == p;
                    assert(records@[j].1 != records@[i as int].1);
                }
            }
            let ghost old_map = entries_map(entries@);
            let ghost old_log = log;
            let ghost old_state = StoreView {
                index: old_map,
                log: old_log,
                current_gen,
                writer_pos: writer_start,
            };
            assert(consistent(old_state));
            let ghost mut put_key: Option<Seq<char>> = None;
            match &records[i].0 {
                Command::Put { key, .. } => {
                    index_insert(&mut entries, key.clone(), p);
                    proof {
                        put_key = Some(key@);
                        assert(is_put_of(records@[i as int].0, key@));
                    }
                },
                Command::Rm { key } => {
                    index_remove(&mut entries, key);
                },
                Command::Get { .. } => {},
            }
            proof {
                log = log.insert(p, records@[i as int].0);
                let s = StoreView {
                    index: entries_map(entries@),
                    log,
                    current_gen,
                    writer_pos: writer_start,
                };
                assert forall|k: Seq<char>| #[trigger] s.index.contains_key(k) implies s.log.contains_key(
                    s.index[k],
                ) && is_put_of(s.log[s.index[k]], k) by {
                    if put_key == Some(k) {
                        assert(s.index[k] == p);
                    } else {
                        assert(old_state.index.contains_key(k));
                        assert(old_map[k] == s.index[k]);
                        assert(old_log.contains_key(old_map[k]));
                        assert(old_map[k] != p);
                    }
                }
                assert forall|q: CommandPos| #[trigger]
                    log.contains_key(q) implies exists|j: int| 0 <= j < i + 1 && records@[j].1 == q by {
                    if q != p {
                        assert(old_log.contains_key(q));
                    } else {
                        assert(records@[i as int].1 == q);
                    }
                }
                assert forall|q: CommandPos| #[trigger]
                    s.log.contains_key(q) && q.current_gen == s.current_gen implies q.pos + q.len
                    <= s.writer_pos by {
                    let j = choose|j: int| 0 <= j < i + 1 && records@[j].1 == q;
                    assert(records@[j].1.current_gen < current_gen);
                }
            }
            i = i + 1;
        }
        assert(records@.subrange(0, records.len() as int) =~= records@);
        KvStore { index: entries, log: Ghost(log), current_gen, writer_pos: writer_start }
    }

    /// The generation of the log file that the engine writes to.
    pub fn current_generation(&self) -> (g: u64)
        ensures
            g == self@.current_gen,
    {
        self.current_gen
    }

    /// The offset at which the engine writes its next command.
    pub fn writer_position(&self) -> (p: u64)
        ensures
            p == self@.writer_pos,
    {
        self.writer_pos
    }

    /// Records that the command setting `key` to `value`, `written` bytes
    /// long, was appended at the writer's position.
    pub fn set(&mut self, key: String, value: String, written: u64)
        requires
            can_append(old(self)@, written),
        ensures
            final(self)@ == set_spec(old(self)@, key, value, written),
            consistent(final(self)@),
    {
        proof {
            use_type_invariant(&*self);
            lemma_set_consistent(self@, key, value, written);
        }
        let start = self.writer_pos;
        let end = start + written;
        let current_gen = self.current_gen;
        let p = CommandPos::from((current_gen, start..end));
        let ghost new_log = self.log@.insert(p, Command::Put { key, value });
        let mut entries: Vec<(String, CommandPos)> = Vec::new();
        std::mem::swap(&mut entries, &mut self.index);
        index_insert(&mut entries, key, p);
        *self = KvStore { index: entries, log: Ghost(new_log), current_gen, writer_pos: end };
    }

    /// Removes `key`, recording that a removal command `written` bytes long
    /// was appended at the writer's position; a key that is not live is
    /// refused with `KeyNotFound` and nothing changes.
    pub fn remove(&mut self, key: String, written: u64) -> (r: Result<(), KvsError>)
        requires
            old(self)@.index.contains_key(key@) ==> can_append(old(self)@, written),
        ensures
            match remove_spec(old(self)@, key, written) {
                Ok(t) => r is Ok && final(self)@ == t,
                Err(e) => r == Err::<(), KvsError>(e) && final(self)@ == old(self)@,
            },
            consistent(final(self)@),
    {
        proof {
            use_type_invariant(&*self);
            lemma_remove_consistent(self@, key, written);
        }
        if find_key(&self.index, &key).is_none() {
            return Err(KvsError::KeyNotFound);
        }
        proof {
            lemma_entries_map(self.index@);
        }
        let start = self.writer_pos;
        let end = start + written;
        let current_gen = self.current_gen;
        let p = CommandPos::from((current_gen, start..end));
        let ghost new_log = self.log@.insert(p, Command::Rm { key });
        let mut entries: Vec<(String, CommandPos)> = Vec::new();
        std::mem::swap(&mut entries, &mut self.index);
        index_remove(&mut entries, &key);
        *self = KvStore { index: entries, log: Ghost(new_log), current_gen, writer_pos: end };
        Ok(())
    }

    /// The log position of the latest write of `key`, if `key` is live.
    pub fn position(&self, key: &String) -> (p: Option<CommandPos>)
        ensures
            p == (if self@.index.contains_key(key@) {
                Some(self@.index[key@])
            } else {
                None
            }),
    {
        proof {
            use_type_invariant(self);
            lemma_entries_map(self.index@);
        }
        match find_key(&self.index, key) {
            Some(i) => Some(self.index[i].1),
            None => None,
        }
    }

    /// The answer to a read of `key`, where `logged` is the command read
    /// from the log at `self.position(key)` (`None` where it has none).
    pub fn get(&self, key: &String, logged: Option<Command>) -> (r: Result<Option<String>, KvsError>)
        ensures
            r == read_answer(self@, key@, logged),
    {
        proof {
            use_type_invariant(self);
            lemma_entries_map(self.index@);
        }
        if find_key(&self.index, key).is_none() {
            return Ok(None);
        }
        match logged {
            Some(Command::Put { key: k, value }) => {
                if same_key(&k, key) {
                    Ok(Some(value))
                } else {
                    Err(KvsError::UnexpectedCommandType)
                }
            },
            _ => Err(KvsError::UnexpectedCommandType),
        }
    }
}

} // verus!
