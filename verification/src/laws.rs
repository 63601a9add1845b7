//! Properties that relate the store's operations to each other.
use vstd::prelude::*;
use crate::command::Command;
use crate::error::KvsError;
use crate::log_files::{generation_of, generations_of, is_sorted, log_file_name_spec};
use crate::store::{
    appended_at, can_append, consistent, contents, distinct_positions, is_put_of, next_generation,
    read_answer, remove_spec, replay, set_spec, CommandPos, StoreView,
};

verus! {

broadcast use vstd::seq_lib::group_to_multiset_ensures;

/// Writing `key` makes `value` its value and leaves the value of every
/// other key as it was.
pub proof fn law_set_writes_value(s: StoreView, key: String, value: String, written: u64)
    requires
        consistent(s),
        can_append(s, written),
    ensures
        consistent(set_spec(s, key, value, written)),
        contents(set_spec(s, key, value, written)) == contents(s).insert(key@, value@),
{
    crate::store::lemma_set_consistent(s, key, value, written);
    let t = set_spec(s, key, value, written);
    assert forall|k: Seq<char>| #[trigger] s.index.contains_key(k) && k != key@ implies t.log[t.index[k]]
        == s.log[s.index[k]] by {
        assert(s.log.contains_key(s.index[k]));
    }
    assert(contents(t) =~= contents(s).insert(key@, value@));
}

/// Removing a key that is not live is refused with `KeyNotFound`; removing
/// a live key drops it and leaves the value of every other key as it was.
pub proof fn law_remove_drops_key(s: StoreView, key: String, written: u64)
    requires
        consistent(s),
        s.index.contains_key(key@) ==> can_append(s, written),
    ensures
        (remove_spec(s, key, written) == Err::<StoreView, KvsError>(KvsError::KeyNotFound)) <==> !contents(
            s,
        ).contains_key(key@),
        contents(s).contains_key(key@) ==> remove_spec(s, key, written) is Ok,
        remove_spec(s, key, written) matches Ok(t) ==> t.current_gen == s.current_gen
            && t.writer_pos == s.writer_pos + written && t.log[CommandPos {
            current_gen: s.current_gen,
            pos: s.writer_pos,
            len: written,
        }] == (Command::Rm { key }),
        remove_spec(s, key, written) matches Ok(t) ==> consistent(t) && contents(t) == contents(
            s,
        ).remove(key@),
{
    crate::store::lemma_remove_consistent(s, key, written);
    if s.index.contains_key(key@) {
        let t = remove_spec(s, key, written)->Ok_0;
        assert forall|k: Seq<char>| #[trigger] t.index.contains_key(k) implies t.log[t.index[k]]
            == s.log[s.index[k]] by {
            assert(s.index.contains_key(k));
            assert(s.log.contains_key(s.index[k]));
        }
        assert(contents(t) =~= contents(s).remove(key@));
    }
}

/// A write is appended at the writer, in the file the engine writes, and
/// moves the writer past it; the key then points at it.
pub proof fn law_set_appends_at_writer(s: StoreView, key: String, value: String, written: u64)
    requires
        can_append(s, written),
    ensures
        ({
            let t = set_spec(s, key, value, written);
            let p = CommandPos { current_gen: s.current_gen, pos: s.writer_pos, len: written };
            &&& t.current_gen == s.current_gen
            &&& t.writer_pos == s.writer_pos + written
            &&& t.index.contains_key(key@)
            &&& t.index[key@] == p
            &&& t.log[p] == (Command::Put { key, value })
        }),
{
}

/// A read of a key that is not live answers nothing; a read of a live key
/// that finds, at the key's position, the command the log holds there
/// answers the key's value.
pub proof fn law_read_gives_value(s: StoreView, k: Seq<char>, logged: Option<Command>)
    requires
        consistent(s),
    ensures
        !contents(s).contains_key(k) ==> read_answer(s, k, logged) == Ok::<
            Option<String>,
            KvsError,
        >(None),
        contents(s).contains_key(k) ==> (read_answer(s, k, Some(s.log[s.index[k]])) matches Ok(
            Some(v),
        ) && v@ == contents(s)[k]),
{
    if contents(s).contains_key(k) {
        assert(s.index.contains_key(k));
    }
}

/// A read after writing `key` answers the value written.
pub proof fn law_read_after_write(s: StoreView, key: String, value: String, written: u64)
    requires
        consistent(s),
        can_append(s, written),
    ensures
        ({
            let t = set_spec(s, key, value, written);
            read_answer(t, key@, Some(t.log[t.index[key@]])) == Ok::<Option<String>, KvsError>(
                Some(value),
            )
        }),
{
}

/// A read after removing `key` answers nothing, whatever it finds.
pub proof fn law_read_after_remove(
    s: StoreView,
    key: String,
    written: u64,
    logged: Option<Command>,
)
    ensures
        remove_spec(s, key, written) matches Ok(t) ==> read_answer(t, key@, logged) == Ok::<
            Option<String>,
            KvsError,
        >(None),
{
}

/// Two writes in a row are laid out back to back in the file the engine
/// writes.
pub proof fn law_set_back_to_back(
    s: StoreView,
    k1: String,
    v1: String,
    w1: u64,
    k2: String,
    v2: String,
    w2: u64,
)
    requires
        k1@ != k2@,
        s.writer_pos + w1 <= u64::MAX,
    ensures
        ({
            let t = set_spec(set_spec(s, k1, v1, w1), k2, v2, w2);
            &&& t.index[k2@].pos == t.index[k1@].pos + t.index[k1@].len
            &&& t.index[k1@].current_gen == s.current_gen
            &&& t.index[k2@].current_gen == s.current_gen
        }),
{
}

/// A second write of a key replaces the first: the set of live keys stays
/// the same, and the key's position follows right after the first write.
pub proof fn law_set_last_write_wins(
    s: StoreView,
    k: String,
    v1: String,
    w1: u64,
    v2: String,
    w2: u64,
)
    requires
        s.writer_pos + w1 <= u64::MAX,
    ensures
        ({
            let t1 = set_spec(s, k, v1, w1);
            let t2 = set_spec(t1, k, v2, w2);
            &&& t2.index.dom() == t1.index.dom()
            &&& t2.index.len() == t1.index.len()
            &&& t2.index[k@].pos == t1.index[k@].pos + t1.index[k@].len
        }),
{
    let t1 = set_spec(s, k, v1, w1);
    let t2 = set_spec(t1, k, v2, w2);
    assert(t2.index.dom() =~= t1.index.dom());
}

/// The positions that the index holds in the file the engine writes lie
/// before the writer and do not overlap.
pub open spec fn layout_ok(s: StoreView) -> bool {
    &&& forall|k: Seq<char>| #[trigger]
        s.index.contains_key(k) && s.index[k].current_gen == s.current_gen ==> s.index[k].pos
            + s.index[k].len <= s.writer_pos
    &&& forall|a: Seq<char>, b: Seq<char>|
        #![trigger s.index.contains_key(a), s.index.contains_key(b)]
        s.index.contains_key(a) && s.index.contains_key(b) && a != b && s.index[a].current_gen
            == s.current_gen && s.index[b].current_gen == s.current_gen ==> s.index[a].pos
            + s.index[a].len <= s.index[b].pos || s.index[b].pos + s.index[b].len
            <= s.index[a].pos
}

/// Writing and removing keep the index's positions before the writer and
/// apart.
pub proof fn law_writes_keep_layout(s: StoreView, key: String, value: String, written: u64)
    requires
        layout_ok(s),
        can_append(s, written),
    ensures
        layout_ok(set_spec(s, key, value, written)),
        remove_spec(s, key, written) matches Ok(t) ==> layout_ok(t),
{
    let t = set_spec(s, key, value, written);
    assert forall|a: Seq<char>, b: Seq<char>|
        t.index.contains_key(a) && t.index.contains_key(b) && a != b && t.index[a].current_gen
            == t.current_gen && t.index[b].current_gen == t.current_gen implies t.index[a].pos
        + t.index[a].len <= t.index[b].pos || t.index[b].pos + t.index[b].len
        <= t.index[a].pos by {
        if a != key@ {
            assert(s.index.contains_key(a));
        }
        if b != key@ {
            assert(s.index.contains_key(b));
        }
    }
    if s.index.contains_key(key@) {
        let r = remove_spec(s, key, written)->Ok_0;
        assert forall|a: Seq<char>, b: Seq<char>|
            r.index.contains_key(a) && r.index.contains_key(b) && a != b && r.index[a].current_gen
                == r.current_gen && r.index[b].current_gen == r.current_gen implies r.index[a].pos
            + r.index[a].len <= r.index[b].pos || r.index[b].pos + r.index[b].len
            <= r.index[a].pos by {
            assert(s.index.contains_key(a));
            assert(s.index.contains_key(b));
        }
    }
}

/// The generation an engine writes is one more than the newest of the
/// generations (ascending) it was opened over, or 1 where there is none.
pub proof fn law_next_generation(gens: Seq<u64>)
    requires
        is_sorted(gens),
    ensures
        forall|i: int| 0 <= i < gens.len() ==> #[trigger] gens[i] < next_generation(gens),
        gens.len() == 0 ==> next_generation(gens) == 1,
        gens.len() > 0 ==> gens.contains((next_generation(gens) - 1) as u64),
{
    if gens.len() > 0 {
        assert(gens[gens.len() - 1] == gens.last());
        assert forall|i: int| 0 <= i < gens.len() implies #[trigger] gens[i] < next_generation(gens) by {
            assert(gens[i] <= gens[gens.len() - 1]);
        }
    }
}

/// An engine opened over the generations found among the file names `names`
/// (listed in ascending order as `gens`) writes to a generation newer than
/// every log file already there.
pub proof fn law_open_writes_fresh_generation(names: Seq<Seq<char>>, gens: Seq<u64>)
    requires
        is_sorted(gens),
        gens.to_multiset() == generations_of(names).to_multiset(),
    ensures
        forall|i: int|
            0 <= i < generations_of(names).len() ==> #[trigger] generations_of(names)[i]
                < next_generation(gens),
{
    let found = generations_of(names);
    assert forall|i: int| 0 <= i < found.len() implies #[trigger] found[i] < next_generation(gens) by {
        assert(found.contains(found[i]));
        assert(found.to_multiset().count(found[i]) > 0);
        assert(gens.to_multiset().count(found[i]) > 0);
        assert(gens.contains(found[i]));
        let j = choose|j: int| 0 <= j < gens.len() && gens[j] == found[i];
        assert(gens[j] <= gens[gens.len() - 1]);
    }
}

/// `cmd` writes or removes the key `k`.
pub open spec fn touches(cmd: Command, k: Seq<char>) -> bool {
    ||| cmd matches Command::Put { key, .. } && key@ == k
    ||| cmd matches Command::Rm { key } && key@ == k
}

/// The record at `i` is a write of `k` that no later record writes over
/// or removes: the latest word of the log on `k`.
pub open spec fn latest_write_at(recs: Seq<(Command, CommandPos)>, k: Seq<char>, i: int) -> bool {
    &&& 0 <= i < recs.len()
    &&& is_put_of(recs[i].0, k)
    &&& forall|j: int| i < j < recs.len() ==> !touches(#[trigger] recs[j].0, k)
}

/// Replaying a log makes a key live exactly where its latest write or
/// removal in the log is a write, and points it at that write; the log it
/// builds holds exactly the positions of the records, each with its record.
/// (So replaying no records gives no live key.)
pub proof fn law_replay_index(recs: Seq<(Command, CommandPos)>, k: Seq<char>)
    ensures
        replay(recs).0.contains_key(k) <==> exists|i: int| latest_write_at(recs, k, i),
        forall|i: int| latest_write_at(recs, k, i) ==> replay(recs).0[k] == recs[i].1,
        forall|p: CommandPos|
            #[trigger] replay(recs).1.contains_key(p) <==> exists|i: int|
                0 <= i < recs.len() && recs[i].1 == p,
        distinct_positions(recs) ==> forall|i: int|
            0 <= i < recs.len() ==> #[trigger] replay(recs).1[recs[i].1] == recs[i].0,
    decreases recs.len(),
{
    if recs.len() == 0 {
        assert(replay(recs).0 =~= Map::<Seq<char>, CommandPos>::empty());
    } else {
        let r = recs.drop_last();
        let n = recs.len() - 1;
        let (cmd, p) = recs.last();
        law_replay_index(r, k);
        assert forall|i: int| 0 <= i < n implies recs[i] == r[i] by {}
        // the latest write in `recs` at an earlier index is the latest in `r`
        // with nothing after it touching `k`
        assert forall|i: int| 0 <= i < n implies latest_write_at(recs, k, i) <==> (latest_write_at(
            r,
            k,
            i,
        ) && !touches(cmd, k)) by {
            if latest_write_at(recs, k, i) {
                assert(!touches(recs[n].0, k));
                assert forall|j: int| i < j < r.len() implies !touches(#[trigger] r[j].0, k) by {
                    assert(r[j] == recs[j]);
                    assert(!touches(recs[j].0, k));
                }
            }
            if latest_write_at(r, k, i) && !touches(cmd, k) {
                assert forall|j: int| i < j < recs.len() implies !touches(#[trigger] recs[j].0, k) by {
                    if j < n {
                        assert(r[j] == recs[j]);
                    }
                }
            }
        }
        if touches(cmd, k) {
            if is_put_of(cmd, k) {
                assert(latest_write_at(recs, k, n));
            } else {
                assert(!replay(recs).0.contains_key(k));
                assert forall|i: int| !latest_write_at(recs, k, i) by {
                    if 0 <= i < n && latest_write_at(recs, k, i) {
                    }
                }
            }
        } else {
            assert(!is_put_of(cmd, k));
            assert(replay(recs).0.contains_key(k) == replay(r).0.contains_key(k));
            if replay(r).0.contains_key(k) {
                let i = choose|i: int| latest_write_at(r, k, i);
                assert(latest_write_at(recs, k, i));
            }
            if exists|i: int| latest_write_at(recs, k, i) {
                let i = choose|i: int| latest_write_at(recs, k, i);
                assert(i != n);
                assert(latest_write_at(r, k, i));
            }
            assert forall|i: int| latest_write_at(recs, k, i) implies replay(recs).0[k] == recs[i].1 by {
                assert(i != n);
                assert(latest_write_at(r, k, i));
            }
        }
        assert forall|q: CommandPos| #[trigger] replay(recs).1.contains_key(q) <==> exists|i: int|
            0 <= i < recs.len() && recs[i].1 == q by {
            if q != p && replay(recs).1.contains_key(q) {
                assert(replay(r).1.contains_key(q));
                let i = choose|i: int| 0 <= i < r.len() && r[i].1 == q;
                assert(recs[i].1 == q);
            }
            if q == p {
                assert(recs[n].1 == q);
            }
            if exists|i: int| 0 <= i < recs.len() && recs[i].1 == q {
                let i = choose|i: int| 0 <= i < recs.len() && recs[i].1 == q;
                if i < n {
                    assert(r[i].1 == q);
                    assert(replay(r).1.contains_key(q));
                }
            }
        }
        if distinct_positions(recs) {
            assert(distinct_positions(r));
            assert forall|i: int| 0 <= i < recs.len() implies #[trigger] replay(recs).1[recs[i].1]
                == recs[i].0 by {
                if i < n {
                    assert(recs[i].1 != recs[n].1);
                    assert(replay(r).1[r[i].1] == r[i].0);
                }
            }
        }
    }
}

/// An operation of a session on the engine: a write of a key with its
/// value, or a removal of a key, each with the byte length of the record it
/// appends.
pub enum SessionOp {
    Write(String, String, u64),
    Delete(String, u64),
}

/// The key that an operation names.
pub open spec fn op_key(op: SessionOp) -> Seq<char> {
    match op {
        SessionOp::Write(k, _, _) => k@,
        SessionOp::Delete(k, _) => k@,
    }
}

/// The byte length of the record that an operation appends.
pub open spec fn op_written(op: SessionOp) -> u64 {
    match op {
        SessionOp::Write(_, _, w) => w,
        SessionOp::Delete(_, w) => w,
    }
}

/// The state after an operation: a refused removal changes nothing.
pub open spec fn step(s: StoreView, op: SessionOp) -> StoreView {
    match op {
        SessionOp::Write(k, v, w) => set_spec(s, k, v, w),
        SessionOp::Delete(k, w) => match remove_spec(s, k, w) {
            Ok(t) => t,
            Err(_) => s,
        },
    }
}

/// The record that an operation appends to the log, if any.
pub open spec fn op_record(s: StoreView, op: SessionOp) -> Option<(Command, CommandPos)> {
    match op {
        SessionOp::Write(k, v, w) => Some((Command::Put { key: k, value: v }, appended_at(s, w))),
        SessionOp::Delete(k, w) => if s.index.contains_key(k@) {
            Some((Command::Rm { key: k }, appended_at(s, w)))
        } else {
            None
        },
    }
}

/// The state after the operations `ops`, in order.
pub open spec fn run(s: StoreView, ops: Seq<SessionOp>) -> StoreView
    decreases ops.len(),
{
    if ops.len() == 0 {
        s
    } else {
        step(run(s, ops.drop_last()), ops.last())
    }
}

/// The records that the operations `ops` append to the log, in order.
pub open spec fn session_records(s: StoreView, ops: Seq<SessionOp>) -> Seq<(Command, CommandPos)>
    decreases ops.len(),
{
    if ops.len() == 0 {
        Seq::empty()
    } else {
        let prev = session_records(s, ops.drop_last());
        match op_record(run(s, ops.drop_last()), ops.last()) {
            Some(r) => prev.push(r),
            None => prev,
        }
    }
}

/// Each operation's record fits before the end of the writer's range.
pub open spec fn fits(s: StoreView, ops: Seq<SessionOp>) -> bool
    decreases ops.len(),
{
    if ops.len() == 0 {
        true
    } else {
        fits(s, ops.drop_last()) && can_append(run(s, ops.drop_last()), op_written(ops.last()))
    }
}

/// Replaying the records of a log and then the records that a session on
/// the store opened over it appended builds that session's index and log;
/// a store opened over them answers every read as the session would.
pub proof fn law_replay_rebuilds_session(
    recs: Seq<(Command, CommandPos)>,
    s: StoreView,
    ops: Seq<SessionOp>,
)
    requires
        (s.index, s.log) == replay(recs),
    ensures
        replay(recs + session_records(s, ops)) == (run(s, ops).index, run(s, ops).log),
        forall|reopened: StoreView, k: Seq<char>, logged: Option<Command>|
            reopened.index == replay(recs + session_records(s, ops)).0 ==> #[trigger] read_answer(
                reopened,
                k,
                logged,
            ) == read_answer(run(s, ops), k, logged),
    decreases ops.len(),
{
    if ops.len() > 0 {
        let prev_ops = ops.drop_last();
        law_replay_rebuilds_session(recs, s, prev_ops);
        let t = run(s, prev_ops);
        let prev = session_records(s, prev_ops);
        match op_record(t, ops.last()) {
            Some(r) => {
                assert(recs + prev.push(r) =~= (recs + prev).push(r));
                assert((recs + prev).push(r).drop_last() =~= recs + prev);
                let (i2, l2) = replay(recs + session_records(s, ops));
                assert(i2 =~= run(s, ops).index);
                assert(l2 =~= run(s, ops).log);
            },
            None => {},
        }
    }
}

proof fn lemma_run_untouched(s: StoreView, ops: Seq<SessionOp>, k: Seq<char>)
    requires
        consistent(s),
        fits(s, ops),
        forall|i: int| 0 <= i < ops.len() ==> op_key(#[trigger] ops[i]) != k,
    ensures
        consistent(run(s, ops)),
        run(s, ops).index.contains_key(k) == s.index.contains_key(k),
        s.index.contains_key(k) ==> run(s, ops).index[k] == s.index[k] && run(s, ops).log[s.index[k]]
            == s.log[s.index[k]],
    decreases ops.len(),
{
    if ops.len() > 0 {
        let prev_ops = ops.drop_last();
        assert forall|i: int| 0 <= i < prev_ops.len() implies op_key(#[trigger] prev_ops[i]) != k by {
            assert(prev_ops[i] == ops[i]);
        }
        lemma_run_untouched(s, prev_ops, k);
        let t = run(s, prev_ops);
        let op = ops.last();
        assert(op_key(ops[ops.len() - 1]) != k);
        let p = appended_at(t, op_written(op));
        assert(!t.log.contains_key(p));
        match op {
            SessionOp::Write(key, value, w) => {
                crate::store::lemma_set_consistent(t, key, value, w);
            },
            SessionOp::Delete(key, w) => {
                crate::store::lemma_remove_consistent(t, key, w);
            },
        }
        if s.index.contains_key(k) {
            assert(t.log.contains_key(t.index[k]));
        }
    }
}

/// After `key` is written, a session of operations none of which names
/// `key` keeps its position and its record, and a read of `key` that finds
/// that record answers the value written.
pub proof fn law_read_after_session(
    s: StoreView,
    key: String,
    value: String,
    written: u64,
    ops: Seq<SessionOp>,
)
    requires
        consistent(s),
        can_append(s, written),
        fits(set_spec(s, key, value, written), ops),
        forall|i: int| 0 <= i < ops.len() ==> op_key(#[trigger] ops[i]) != key@,
    ensures
        ({
            let t0 = set_spec(s, key, value, written);
            let t = run(t0, ops);
            &&& t.index.contains_key(key@)
            &&& t.index[key@] == t0.index[key@]
            &&& t.log[t.index[key@]] == (Command::Put { key, value })
            &&& read_answer(t, key@, Some(t.log[t.index[key@]])) == Ok::<
                Option<String>,
                KvsError,
            >(Some(value))
        }),
{
    let t0 = set_spec(s, key, value, written);
    crate::store::lemma_set_consistent(s, key, value, written);
    lemma_run_untouched(t0, ops, key@);
}

/// A store reopened after a session (whose new log file joins the names in
/// the directory) writes the generation after the one the session wrote.
pub proof fn law_reopen_writes_next_generation(
    names: Seq<Seq<char>>,
    gens: Seq<u64>,
    gens_after: Seq<u64>,
)
    requires
        is_sorted(gens),
        gens.to_multiset() == generations_of(names).to_multiset(),
        next_generation(gens) < u64::MAX,
        is_sorted(gens_after),
        gens_after.to_multiset() == generations_of(
            names.push(log_file_name_spec(next_generation(gens) as u64)),
        ).to_multiset(),
    ensures
        next_generation(gens_after) == next_generation(gens) + 1,
{
    let g = next_generation(gens) as u64;
    let names2 = names.push(log_file_name_spec(g));
    crate::log_files::law_log_file_name_round_trip(g);
    assert(names2.drop_last() =~= names);
    assert(generation_of(names2.last()) == Some(g));
    let found2 = generations_of(names2);
    assert(found2 == generations_of(names).push(g));
    law_open_writes_fresh_generation(names, gens);
    assert(found2[found2.len() - 1] == g);
    assert(found2.to_multiset().count(g) > 0);
    assert(gens_after.contains(g));
    let j = choose|j: int| 0 <= j < gens_after.len() && gens_after[j] == g;
    assert(g <= gens_after.last());
    let last = gens_after.last();
    assert(gens_after.contains(last));
    assert(found2.to_multiset().count(last) > 0);
    assert(found2.contains(last));
    let i = choose|i: int| 0 <= i < found2.len() && found2[i] == last;
    if i < found2.len() - 1 {
        assert(found2[i] == generations_of(names)[i]);
    }
}

} // verus!
