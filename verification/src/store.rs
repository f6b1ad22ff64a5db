//! The entry store: a durable table of captured entries with shell
//! deduplication, a derived session tracker and a co-occurrence graph.
//!
//! Shell entries are unique per (content, host); re-inserting one bumps its
//! times-run counter instead of adding a row. Consecutive shell inserts within
//! [`SESSION_TIMEOUT_SECS`] of one another share a session; each insert links
//! the new entry to up to [`ASSOCIATION_DEPTH`] immediately preceding entries
//! of its session by directed edges whose strength counts repeat observations.
use vstd::prelude::*;

use vstd::multiset::Multiset;

use crate::seqx::{lemma_filter_all, lemma_filter_filter_le, lemma_filter_step, lemma_filter_sub};
use crate::types::{Entry, EntryType, EntryV, QueryParams, opt_bytes, opt_words};

verus! {

/// Seconds two consecutive shell inserts may lie apart and still share a
/// session.
pub const SESSION_TIMEOUT_SECS: u64 = 300;

/// How many immediately preceding session entries are linked to a new insert.
pub const ASSOCIATION_DEPTH: u64 = 3;

/// Days after which a weak (strength < 2) edge is pruned.
pub const CLEAN_OLD_ASSOCIATIONS_DAYS: u64 = 30;

/// Days after which a session row is pruned.
pub const CLEAN_SESSIONS_DAYS: u64 = 90;

/// One membership of an entry in a session, at a fixed position.
#[derive(Debug, Clone, Copy, PartialEq, Eq, Structural)]
pub struct SessionRow {
    pub entry_id: u64,
    pub session_id: u64,
    pub position: u64,
    pub timestamp: u64,
}

/// A directed co-occurrence edge: the entry `command_b_id` was observed
/// `sequence_order` positions after `command_a_id` in the same session,
/// `strength` times, most recently at `last_seen`.
#[derive(Debug, Clone, Copy, PartialEq, Eq, Structural)]
pub struct Edge {
    pub command_a_id: u64,
    pub command_b_id: u64,
    pub sequence_order: u64,
    pub strength: u64,
    pub last_seen: u64,
}

/// No two session rows share (session id, position).
pub open spec fn sessions_unique(ss: Seq<SessionRow>) -> bool {
    forall|i: int, j: int|
        0 <= i < j < ss.len() ==> !((#[trigger] ss[i]).session_id == (
        #[trigger] ss[j]).session_id && ss[i].position == ss[j].position)
}

/// Edge triples are unique, orders lie in 1..=ASSOCIATION_DEPTH, strengths
/// are positive.
pub open spec fn edges_wf(es: Seq<Edge>) -> bool {
    &&& forall|i: int, j: int|
        0 <= i < j < es.len() ==> !((#[trigger] es[i]).command_a_id == (
        #[trigger] es[j]).command_a_id && es[i].command_b_id == es[j].command_b_id
            && es[i].sequence_order == es[j].sequence_order)
    &&& forall|i: int|
        0 <= i < es.len() ==> 1 <= (#[trigger] es[i]).sequence_order <= ASSOCIATION_DEPTH
    &&& forall|i: int| 0 <= i < es.len() ==> (#[trigger] es[i]).strength >= 1
}

/// The session identifier a shell insert at time `now` joins: the session of
/// the latest session row if that row is younger than the timeout, else a
/// fresh identifier minted from `now`.
pub open spec fn session_id_for(ss: Seq<SessionRow>, now: u64) -> u64 {
    if ss.len() > 0 && now < ss.last().timestamp + SESSION_TIMEOUT_SECS {
        ss.last().session_id
    } else {
        now
    }
}

/// The position a new row of session `sid` gets: one past the maximum
/// position used so far, 0 for a fresh session.
pub open spec fn next_position(ss: Seq<SessionRow>, sid: u64) -> int
    decreases ss.len(),
{
    if ss.len() == 0 {
        0
    } else {
        let rest = next_position(ss.drop_last(), sid);
        if ss.last().session_id == sid && ss.last().position + 1 > rest {
            ss.last().position + 1
        } else {
            rest
        }
    }
}

proof fn lemma_next_position(ss: Seq<SessionRow>, sid: u64)
    ensures
        next_position(ss, sid) >= 0,
        forall|i: int|
            0 <= i < ss.len() && (#[trigger] ss[i]).session_id == sid ==> ss[i].position
                < next_position(ss, sid),
    decreases ss.len(),
{
    if ss.len() > 0 {
        lemma_next_position(ss.drop_last(), sid);
        assert forall|i: int|
            0 <= i < ss.len() && (#[trigger] ss[i]).session_id == sid implies ss[i].position
            < next_position(ss, sid) by {
            if i < ss.len() - 1 {
                assert(ss.drop_last()[i] == ss[i]);
            }
        }
    }
}

/// How the session tracker changes on one shell insert: one row appended for
/// the entry, in the session and at the position the rules give. (If the next
/// position would not fit in a u64, the tracker is left unchanged.)
pub open spec fn session_step(
    old_ss: Seq<SessionRow>,
    new_ss: Seq<SessionRow>,
    id: u64,
    now: u64,
) -> bool {
    let sid = session_id_for(old_ss, now);
    let p = next_position(old_ss, sid);
    if p <= u64::MAX {
        new_ss == old_ss.push(
            SessionRow { entry_id: id, session_id: sid, position: p as u64, timestamp: now },
        )
    } else {
        new_ss == old_ss
    }
}

/// Number of session rows with this session id, position and entry.
pub open spec fn prev_count(ss: Seq<SessionRow>, sid: u64, pos: int, a: u64) -> nat
    decreases ss.len(),
{
    if ss.len() == 0 {
        0
    } else {
        prev_count(ss.drop_last(), sid, pos, a) + if ss.last().session_id == sid
            && ss.last().position == pos && ss.last().entry_id == a {
            1nat
        } else {
            0nat
        }
    }
}

/// How many observations of (a, b, o) the row `r` adds when appended after
/// `prefix`: the number of rows of `r`'s session sitting `o` positions before
/// it and holding entry `a`, provided `r` holds entry `b`.
pub open spec fn end_inc(prefix: Seq<SessionRow>, r: SessionRow, a: u64, b: u64, o: int) -> nat {
    if r.entry_id == b {
        prev_count(prefix, r.session_id, r.position - o, a)
    } else {
        0
    }
}

/// Number of times entry `b` has appeared exactly `o` positions after entry
/// `a` within one session, over the whole session history.
pub open spec fn pair_count(ss: Seq<SessionRow>, a: u64, b: u64, o: int) -> nat
    decreases ss.len(),
{
    if ss.len() == 0 {
        0
    } else {
        pair_count(ss.drop_last(), a, b, o) + end_inc(ss.drop_last(), ss.last(), a, b, o)
    }
}

proof fn lemma_pair_count_push(ss: Seq<SessionRow>, r: SessionRow, a: u64, b: u64, o: int)
    ensures
        pair_count(ss.push(r), a, b, o) == pair_count(ss, a, b, o) + end_inc(ss, r, a, b, o),
{
    assert(ss.push(r).drop_last() =~= ss);
    assert(ss.push(r).last() == r);
}

/// With no row at (sid, pos), nothing is counted.
proof fn lemma_prev_count_none(ss: Seq<SessionRow>, sid: u64, pos: int)
    requires
        forall|i: int|
            0 <= i < ss.len() ==> !((#[trigger] ss[i]).session_id == sid && ss[i].position == pos),
    ensures
        forall|a: u64| prev_count(ss, sid, pos, a) == 0,
    decreases ss.len(),
{
    if ss.len() > 0 {
        assert forall|i: int|
            0 <= i < ss.drop_last().len() implies !((#[trigger] ss.drop_last()[i]).session_id == sid
            && ss.drop_last()[i].position == pos) by {
            assert(ss.drop_last()[i] == ss[i]);
        }
        lemma_prev_count_none(ss.drop_last(), sid, pos);
        assert(!(ss.last().session_id == sid && ss.last().position == pos));
        assert forall|a: u64| prev_count(ss, sid, pos, a) == 0 by {
            assert(prev_count(ss.drop_last(), sid, pos, a) == 0);
        }
    }
}

/// With position unique per session, the row at (sid, pos) is the one counted.
proof fn lemma_prev_count_found(ss: Seq<SessionRow>, sid: u64, pos: int, k: int)
    requires
        sessions_unique(ss),
        0 <= k < ss.len(),
        ss[k].session_id == sid,
        ss[k].position == pos,
    ensures
        forall|a: u64|
            prev_count(ss, sid, pos, a) == if ss[k].entry_id == a {
                1nat
            } else {
                0nat
            },
    decreases ss.len(),
{
    if k == ss.len() - 1 {
        assert forall|i: int|
            0 <= i < ss.drop_last().len() implies !((#[trigger] ss.drop_last()[i]).session_id == sid
            && ss.drop_last()[i].position == pos) by {
            assert(ss.drop_last()[i] == ss[i]);
        }
        lemma_prev_count_none(ss.drop_last(), sid, pos);
        assert forall|a: u64|
            prev_count(ss, sid, pos, a) == if ss[k].entry_id == a {
                1nat
            } else {
                0nat
            } by {
            assert(prev_count(ss.drop_last(), sid, pos, a) == 0);
            assert(ss.last() == ss[k]);
        }
    } else {
        assert(sessions_unique(ss.drop_last())) by {
            assert forall|i: int, j: int|
                0 <= i < j < ss.drop_last().len() implies !((
            #[trigger] ss.drop_last()[i]).session_id == (
            #[trigger] ss.drop_last()[j]).session_id && ss.drop_last()[i].position
                == ss.drop_last()[j].position) by {
                assert(ss.drop_last()[i] == ss[i]);
                assert(ss.drop_last()[j] == ss[j]);
            }
        }
        assert(ss.drop_last()[k] == ss[k]);
        lemma_prev_count_found(ss.drop_last(), sid, pos, k);
        assert(!(ss.last().session_id == sid && ss.last().position == pos));
        assert forall|a: u64|
            prev_count(ss, sid, pos, a) == if ss[k].entry_id == a {
                1nat
            } else {
                0nat
            } by {
            assert(prev_count(ss.drop_last(), sid, pos, a) == if ss.drop_last()[k].entry_id == a {
                1nat
            } else {
                0nat
            });
        }
    }
}

/// At most one row is counted per (sid, pos).
proof fn lemma_prev_count_le_one(ss: Seq<SessionRow>, sid: u64, pos: int, a: u64)
    requires
        sessions_unique(ss),
    ensures
        prev_count(ss, sid, pos, a) <= 1,
{
    if exists|k: int|
        0 <= k < ss.len() && (#[trigger] ss[k]).session_id == sid && ss[k].position == pos {
        let k = choose|k: int|
            0 <= k < ss.len() && (#[trigger] ss[k]).session_id == sid && ss[k].position == pos;
        lemma_prev_count_found(ss, sid, pos, k);
    } else {
        assert forall|i: int|
            0 <= i < ss.len() implies !((#[trigger] ss[i]).session_id == sid && ss[i].position
            == pos) by {}
        lemma_prev_count_none(ss, sid, pos);
    }
}

/// Each session row adds at most one observation of any pair.
proof fn lemma_pair_count_bound(ss: Seq<SessionRow>, a: u64, b: u64, o: int)
    requires
        sessions_unique(ss),
    ensures
        pair_count(ss, a, b, o) <= ss.len(),
    decreases ss.len(),
{
    if ss.len() > 0 {
        assert(sessions_unique(ss.drop_last())) by {
            assert forall|i: int, j: int|
                0 <= i < j < ss.drop_last().len() implies !((
            #[trigger] ss.drop_last()[i]).session_id == (
            #[trigger] ss.drop_last()[j]).session_id && ss.drop_last()[i].position
                == ss.drop_last()[j].position) by {
                assert(ss.drop_last()[i] == ss[i]);
                assert(ss.drop_last()[j] == ss[j]);
            }
        }
        lemma_pair_count_bound(ss.drop_last(), a, b, o);
        let r = ss.last();
        if r.entry_id == b {
            lemma_prev_count_le_one(ss.drop_last(), r.session_id, r.position - o, a);
        }
    }
}

/// Index of the edge with this (a, b, order) triple, if any.
pub open spec fn edge_find(es: Seq<Edge>, a: u64, b: u64, o: int) -> Option<int>
    decreases es.len(),
{
    if es.len() == 0 {
        None
    } else if es[0].command_a_id == a && es[0].command_b_id == b && es[0].sequence_order == o {
        Some(0)
    } else {
        match edge_find(es.skip(1), a, b, o) {
            Some(i) => Some(i + 1),
            None => None,
        }
    }
}

proof fn lemma_edge_find(es: Seq<Edge>, a: u64, b: u64, o: int)
    ensures
        match edge_find(es, a, b, o) {
            Some(i) => 0 <= i < es.len() && es[i].command_a_id == a && es[i].command_b_id == b
                && es[i].sequence_order == o && forall|j: int|
                0 <= j < i ==> !((#[trigger] es[j]).command_a_id == a && es[j].command_b_id == b
                    && es[j].sequence_order == o),
            None => forall|j: int|
                0 <= j < es.len() ==> !((#[trigger] es[j]).command_a_id == a && es[j].command_b_id
                    == b && es[j].sequence_order == o),
        },
    decreases es.len(),
{
    if es.len() != 0 && !(es[0].command_a_id == a && es[0].command_b_id == b
        && es[0].sequence_order == o) {
        lemma_edge_find(es.skip(1), a, b, o);
        assert forall|j: int| 1 <= j < es.len() implies es.skip(1)[j - 1] == es[j] by {}
    }
}

/// Recorded strength of the (a, b, o) edge; 0 when the edge is absent.
pub open spec fn edge_strength(es: Seq<Edge>, a: u64, b: u64, o: int) -> nat {
    match edge_find(es, a, b, o) {
        Some(i) => es[i].strength as nat,
        None => 0,
    }
}

/// If two edge sequences agree on every triple, lookups agree everywhere.
proof fn lemma_edge_find_same_triples(es1: Seq<Edge>, es2: Seq<Edge>, a: u64, b: u64, o: int)
    requires
        es1.len() == es2.len(),
        forall|i: int|
            0 <= i < es1.len() ==> (#[trigger] es1[i]).command_a_id == (
            #[trigger] es2[i]).command_a_id && es1[i].command_b_id == es2[i].command_b_id
                && es1[i].sequence_order == es2[i].sequence_order,
    ensures
        edge_find(es1, a, b, o) == edge_find(es2, a, b, o),
    decreases es1.len(),
{
    if es1.len() > 0 {
        assert(es1[0].command_a_id == es2[0].command_a_id);
        lemma_edge_find_same_triples(es1.skip(1), es2.skip(1), a, b, o);
        assert forall|j: int| 1 <= j < es1.len() implies es1.skip(1)[j - 1] == es1[j] by {}
        assert forall|j: int| 1 <= j < es2.len() implies es2.skip(1)[j - 1] == es2[j] by {}
    }
}

/// The session identifier an insert at `now` joins (see [`session_id_for`]).
fn session_id_exec(ss: &Vec<SessionRow>, now: u64) -> (r: u64)
    ensures
        r == session_id_for(ss@, now),
{
    if ss.len() > 0 {
        let last = ss[ss.len() - 1];
        if now <= last.timestamp {
            last.session_id
        } else if now - last.timestamp < SESSION_TIMEOUT_SECS {
            last.session_id
        } else {
            now
        }
    } else {
        now
    }
}

/// The next free position of session `sid`, or None if it would not fit.
fn next_position_exec(ss: &Vec<SessionRow>, sid: u64) -> (r: Option<u64>)
    ensures
        match r {
            Some(p) => p as int == next_position(ss@, sid),
            None => next_position(ss@, sid) > u64::MAX,
        },
{
    let mut cur: u64 = 0;
    let mut i: usize = 0;
    while i < ss.len()
        invariant
            i <= ss@.len(),
            cur as int == next_position(ss@.take(i as int), sid),
        decreases ss@.len() - i,
    {
        let row = ss[i];
        proof {
            assert(ss@.take(i + 1 as int).drop_last() =~= ss@.take(i as int));
            assert(ss@.take(i + 1 as int).last() == ss@[i as int]);
        }
        if row.session_id == sid && row.position >= cur {
            if row.position == u64::MAX {
                proof {
                    lemma_next_position(ss@, sid);
                }
                return None;
            }
            cur = row.position + 1;
        }
        i = i + 1;
    }
    proof {
        assert(ss@.take(ss@.len() as int) =~= ss@);
    }
    Some(cur)
}

/// The entry held by the session row at (sid, pos), if such a row exists.
fn find_prev(ss: &Vec<SessionRow>, sid: u64, pos: u64) -> (r: Option<u64>)
    ensures
        match r {
            Some(e) => exists|k: int|
                0 <= k < ss@.len() && (#[trigger] ss@[k]).session_id == sid && ss@[k].position
                    == pos && ss@[k].entry_id == e,
            None => forall|k: int|
                0 <= k < ss@.len() ==> !((#[trigger] ss@[k]).session_id == sid && ss@[k].position
                    == pos),
        },
{
    let mut i: usize = 0;
    while i < ss.len()
        invariant
            i <= ss@.len(),
            forall|k: int|
                0 <= k < i ==> !((#[trigger] ss@[k]).session_id == sid && ss@[k].position == pos),
        decreases ss@.len() - i,
    {
        let row = ss[i];
        if row.session_id == sid && row.position == pos {
            return Some(row.entry_id);
        }
        i = i + 1;
    }
    None
}

/// Record one observation of (a, b, o): bump the edge's strength and refresh
/// its last-seen time, creating the edge with strength 1 if it is new.
fn bump_edge(es: &mut Vec<Edge>, a: u64, b: u64, o: u64, now: u64)
    requires
        edges_wf(old(es)@),
        1 <= o <= ASSOCIATION_DEPTH,
    ensures
        edges_wf(final(es)@),
        edge_strength(final(es)@, a, b, o as int) == if edge_strength(old(es)@, a, b, o as int)
            >= u64::MAX {
            edge_strength(old(es)@, a, b, o as int)
        } else {
            edge_strength(old(es)@, a, b, o as int) + 1
        },
        forall|a2: u64, b2: u64, o2: int|
            !(a2 == a && b2 == b && o2 == o) ==> #[trigger] edge_strength(final(es)@, a2, b2, o2)
                == edge_strength(old(es)@, a2, b2, o2),
{
    proof {
        lemma_edge_find(old(es)@, a, b, o as int);
    }
    let mut i: usize = 0;
    while i < es.len()
        invariant
            i <= es@.len(),
            es@ == old(es)@,
            edges_wf(old(es)@),
            1 <= o <= ASSOCIATION_DEPTH,
            forall|j: int|
                0 <= j < i ==> !((#[trigger] es@[j]).command_a_id == a && es@[j].command_b_id == b
                    && es@[j].sequence_order == o),
        decreases es@.len() - i,
    {
        let e = es[i];
        if e.command_a_id == a && e.command_b_id == b && e.sequence_order == o {
            let new_strength = if e.strength == u64::MAX {
                e.strength
            } else {
                e.strength + 1
            };
            let e2 = Edge {
                command_a_id: e.command_a_id,
                command_b_id: e.command_b_id,
                sequence_order: e.sequence_order,
                strength: new_strength,
                last_seen: now,
            };
            proof {
                lemma_edge_find(old(es)@, a, b, o as int);
                assert(old(es)@[i as int] == e);
                assert(forall|j: int|
                    0 <= j < i ==> !((#[trigger] old(es)@[j]).command_a_id == a
                        && old(es)@[j].command_b_id == b && old(es)@[j].sequence_order == o));
                match edge_find(old(es)@, a, b, o as int) {
                    Some(i0) => {
                        if i0 < i {
                            assert(old(es)@[i0].command_a_id == a && old(es)@[i0].command_b_id == b
                                && old(es)@[i0].sequence_order == o);
                            assert(false);
                        }
                        if i0 > i as int {
                            assert(!(old(es)@[i as int].command_a_id == a && old(
                                es,
                            )@[i as int].command_b_id == b && old(es)@[i as int].sequence_order
                                == o));
                            assert(false);
                        }
                    },
                    None => {
                        assert(!(old(es)@[i as int].command_a_id == a && old(
                            es,
                        )@[i as int].command_b_id == b && old(es)@[i as int].sequence_order == o));
                        assert(false);
                    },
                }
                assert(edge_find(old(es)@, a, b, o as int) == Some(i as int));
            }
            es[i] = e2;
            proof {
                assert forall|i2: int, j2: int|
                    0 <= i2 < j2 < es@.len() implies !((#[trigger] es@[i2]).command_a_id == (
                #[trigger] es@[j2]).command_a_id && es@[i2].command_b_id == es@[j2].command_b_id
                    && es@[i2].sequence_order == es@[j2].sequence_order) by {
                    assert(es@[i2].command_a_id == old(es)@[i2].command_a_id && es@[i2].command_b_id
                        == old(es)@[i2].command_b_id && es@[i2].sequence_order == old(
                        es,
                    )@[i2].sequence_order);
                    assert(es@[j2].command_a_id == old(es)@[j2].command_a_id && es@[j2].command_b_id
                        == old(es)@[j2].command_b_id && es@[j2].sequence_order == old(
                        es,
                    )@[j2].sequence_order);
                }
                lemma_edge_find(es@, a, b, o as int);
                match edge_find(es@, a, b, o as int) {
                    Some(i0) => {
                        if i0 < i {
                            assert(!(es@[i0].command_a_id == a && es@[i0].command_b_id == b
                                && es@[i0].sequence_order == o));
                            assert(false);
                        }
                        if i0 > i as int {
                            assert(!(es@[i as int].command_a_id == a && es@[i as int].command_b_id
                                == b && es@[i as int].sequence_order == o));
                            assert(false);
                        }
                    },
                    None => {
                        assert(!(es@[i as int].command_a_id == a && es@[i as int].command_b_id == b
                            && es@[i as int].sequence_order == o));
                        assert(false);
                    },
                }
                assert(edge_find(es@, a, b, o as int) == Some(i as int));
                assert forall|a2: u64, b2: u64, o2: int|
                    !(a2 == a && b2 == b && o2 == o) implies #[trigger] edge_strength(
                    es@,
                    a2,
                    b2,
                    o2,
                ) == edge_strength(old(es)@, a2, b2, o2) by {
                    lemma_edge_find_same_triples(es@, old(es)@, a2, b2, o2);
                    lemma_edge_find(old(es)@, a2, b2, o2);
                }
            }
            return ;
        }
        i = i + 1;
    }
    let e2 = Edge {
        command_a_id: a,
        command_b_id: b,
        sequence_order: o,
        strength: 1,
        last_seen: now,
    };
    es.push(e2);
    proof {
        assert(edge_find(old(es)@, a, b, o as int) is None);
        lemma_edge_find(es@, a, b, o as int);
        assert forall|j: int| 0 <= j < old(es)@.len() implies es@[j] == old(es)@[j] by {}
        match edge_find(es@, a, b, o as int) {
            Some(k) => {
                assert(k == es@.len() - 1);
            },
            None => {
                assert(es@[es@.len() - 1].command_a_id == a);
                assert(false);
            },
        }
        assert forall|a2: u64, b2: u64, o2: int|
            !(a2 == a && b2 == b && o2 == o) implies #[trigger] edge_strength(es@, a2, b2, o2)
            == edge_strength(old(es)@, a2, b2, o2) by {
            lemma_edge_find(es@, a2, b2, o2);
            lemma_edge_find(old(es)@, a2, b2, o2);
            match edge_find(old(es)@, a2, b2, o2) {
                Some(j) => {
                    match edge_find(es@, a2, b2, o2) {
                        Some(j2) => {
                            assert(!(j2 < j));
                            assert(!(j < j2));
                        },
                        None => {
                            assert(false);
                        },
                    }
                },
                None => {
                    match edge_find(es@, a2, b2, o2) {
                        Some(j2) => {
                            assert(j2 == es@.len() - 1);
                            assert(false);
                        },
                        None => {},
                    }
                },
            }
        }
    }
}

/// The in-memory store: entry table, session tracker, co-occurrence graph.
pub struct Store {
    pub entries: Vec<Entry>,
    pub sessions: Vec<SessionRow>,
    pub edges: Vec<Edge>,
    pub next_id: u64,
    pub dim: usize,
}

/// Whether a stored shell entry matches an insert of (content, host).
pub open spec fn is_shell_match(e: EntryV, content: Seq<u8>, host: Option<Seq<u8>>) -> bool {
    e.entry_type == EntryType::Shell && e.content == content && e.host == host
}

/// Index of the first shell entry with this (content, host), if any.
pub open spec fn shell_find(s: Seq<EntryV>, content: Seq<u8>, host: Option<Seq<u8>>) -> Option<
    int,
>
    decreases s.len(),
{
    if s.len() == 0 {
        None
    } else if is_shell_match(s[0], content, host) {
        Some(0)
    } else {
        match shell_find(s.skip(1), content, host) {
            Some(i) => Some(i + 1),
            None => None,
        }
    }
}

pub proof fn lemma_shell_find(s: Seq<EntryV>, content: Seq<u8>, host: Option<Seq<u8>>)
    ensures
        match shell_find(s, content, host) {
            Some(i) => 0 <= i < s.len() && is_shell_match(s[i], content, host) && forall|j: int|
                0 <= j < i ==> !is_shell_match(s[j], content, host),
            None => forall|j: int| 0 <= j < s.len() ==> !is_shell_match(s[j], content, host),
        },
    decreases s.len(),
{
    if s.len() != 0 && !is_shell_match(s[0], content, host) {
        lemma_shell_find(s.skip(1), content, host);
        assert forall|j: int| 1 <= j < s.len() implies s.skip(1)[j - 1] == s[j] by {}
    }
}

/// Number of shell rows holding this (content, host).
pub open spec fn shell_count(s: Seq<EntryV>, content: Seq<u8>, host: Option<Seq<u8>>) -> nat
    decreases s.len(),
{
    if s.len() == 0 {
        0
    } else {
        shell_count(s.drop_last(), content, host) + if is_shell_match(
            s.last(),
            content,
            host,
        ) {
            1nat
        } else {
            0nat
        }
    }
}

/// No matching row, no count.
proof fn lemma_shell_count_none(s: Seq<EntryV>, content: Seq<u8>, host: Option<Seq<u8>>)
    requires
        forall|j: int| 0 <= j < s.len() ==> !is_shell_match(#[trigger] s[j], content, host),
    ensures
        shell_count(s, content, host) == 0,
    decreases s.len(),
{
    if s.len() > 0 {
        assert forall|j: int| 0 <= j < s.drop_last().len() implies !is_shell_match(
            #[trigger] s.drop_last()[j],
            content,
            host,
        ) by {
            assert(s.drop_last()[j] == s[j]);
        }
        lemma_shell_count_none(s.drop_last(), content, host);
        assert(!is_shell_match(s[s.len() - 1], content, host));
    }
}

/// Exactly one matching row counts one.
proof fn lemma_shell_count_single(s: Seq<EntryV>, content: Seq<u8>, host: Option<Seq<u8>>, i: int)
    requires
        0 <= i < s.len(),
        is_shell_match(s[i], content, host),
        forall|j: int|
            0 <= j < s.len() && j != i ==> !is_shell_match(#[trigger] s[j], content, host),
    ensures
        shell_count(s, content, host) == 1,
    decreases s.len(),
{
    if i == s.len() - 1 {
        assert forall|j: int| 0 <= j < s.drop_last().len() implies !is_shell_match(
            #[trigger] s.drop_last()[j],
            content,
            host,
        ) by {
            assert(s.drop_last()[j] == s[j]);
        }
        lemma_shell_count_none(s.drop_last(), content, host);
        assert(is_shell_match(s.last(), content, host));
    } else {
        assert(s.drop_last()[i] == s[i]);
        assert forall|j: int|
            0 <= j < s.drop_last().len() && j != i implies !is_shell_match(
            #[trigger] s.drop_last()[j],
            content,
            host,
        ) by {
            assert(s.drop_last()[j] == s[j]);
        }
        lemma_shell_count_single(s.drop_last(), content, host, i);
        assert(!is_shell_match(s[s.len() - 1], content, host));
    }
}

/// The row count for each shell tuple, under a duplicate insert: the table
/// already holds exactly one row of (content, host); after the bump it
/// still holds exactly one, with times-run raised by one (so, starting from
/// the fresh insert below, times-run counts the inserts of the tuple over
/// any run of inserts) and never lowered.
pub proof fn lemma_shell_insert_bumps(
    s: Seq<EntryV>,
    content: Seq<u8>,
    host: Option<Seq<u8>>,
    i: int,
    ts: u64,
    now: u64,
)
    requires
        entries_unique(s),
        shell_find(s, content, host) == Some(i),
    ensures
        0 <= i < s.len(),
        shell_count(s, content, host) == 1,
        shell_count(s.update(i, bumped_entry(s[i], ts, now)), content, host) == 1,
        s.update(i, bumped_entry(s[i], ts, now))[i].times_run == bump_count(s[i].times_run),
        bump_count(s[i].times_run) >= s[i].times_run,
{
    lemma_shell_find(s, content, host);
    assert forall|j: int|
        0 <= j < s.len() && j != i implies !is_shell_match(#[trigger] s[j], content, host) by {
        if j > i && is_shell_match(s[j], content, host) {
            assert(s[i].entry_type == EntryType::Shell && s[j].entry_type == EntryType::Shell
                && s[i].content == s[j].content && s[i].host == s[j].host);
        }
        if j < i {
            assert(!is_shell_match(s[j], content, host));
        }
    }
    lemma_shell_count_single(s, content, host, i);
    let post = s.update(i, bumped_entry(s[i], ts, now));
    assert(is_shell_match(post[i], content, host));
    assert forall|j: int|
        0 <= j < post.len() && j != i implies !is_shell_match(#[trigger] post[j], content, host) by {
        assert(post[j] == s[j]);
    }
    lemma_shell_count_single(post, content, host, i);
}

/// The row count for each shell tuple, under a first insert: the table held
/// no row of (content, host); after the insert it holds exactly one, and
/// that row's times-run is the fresh row's (1 as the store inserts it).
pub proof fn lemma_shell_insert_fresh(
    s: Seq<EntryV>,
    content: Seq<u8>,
    host: Option<Seq<u8>>,
    e: EntryV,
)
    requires
        shell_find(s, content, host) is None,
        is_shell_match(e, content, host),
    ensures
        shell_count(s, content, host) == 0,
        shell_count(s.push(e), content, host) == 1,
        s.push(e)[s.len() as int].times_run == e.times_run,
{
    lemma_shell_find(s, content, host);
    lemma_shell_count_none(s, content, host);
    let post = s.push(e);
    assert forall|j: int|
        0 <= j < post.len() && j != s.len() implies !is_shell_match(
        #[trigger] post[j],
        content,
        host,
    ) by {
        assert(post[j] == s[j]);
    }
    assert(post[s.len() as int] == e);
    lemma_shell_count_single(post, content, host, s.len() as int);
}

/// Saturating counter bump.
pub open spec fn bump_count(t: u64) -> u64 {
    if t == u64::MAX {
        t
    } else {
        (t + 1) as u64
    }
}

/// The entry as it looks after a duplicate shell insert: times-run bumped,
/// event timestamp refreshed, updated-at set to now; everything else kept.
pub open spec fn bumped_entry(e: EntryV, ts: u64, now: u64) -> EntryV {
    EntryV { times_run: bump_count(e.times_run), timestamp: ts, updated_at: now, ..e }
}

impl Store {
    /// Whether the co-occurrence graph is exact: for every pair of entries
    /// and every order in 1..=ASSOCIATION_DEPTH, the recorded edge strength
    /// equals the number of observations in the session history (and absent
    /// edges correspond to zero observations).
    pub open spec fn assoc_consistent(self) -> bool {
        forall|a: u64, b: u64, o: int|
            1 <= o <= ASSOCIATION_DEPTH ==> #[trigger] edge_strength(self.edges@, a, b, o)
                == pair_count(self.sessions@, a, b, o)
    }

    /// A store with no session history and no edges is trivially consistent;
    /// with [`Store::insert_shell`]'s preservation clause, every store built
    /// from inserts alone has each edge's strength equal to the number of
    /// observations of its pair at its order.
    pub proof fn lemma_empty_assoc_consistent(self)
        requires
            self.sessions@.len() == 0,
            self.edges@.len() == 0,
        ensures
            self.assoc_consistent(),
    {
        assert forall|a: u64, b: u64, o: int| 1 <= o <= ASSOCIATION_DEPTH implies #[trigger] edge_strength(
            self.edges@,
            a,
            b,
            o,
        ) == pair_count(self.sessions@, a, b, o) by {
            assert(edge_find(self.edges@, a, b, o) is None);
        }
    }

    /// Append the new entry to its session and reinforce the directed edges
    /// from up to ASSOCIATION_DEPTH immediately preceding session entries.
    fn track_associations(&mut self, id: u64, now: u64)
        requires
            old(self).wf_assoc(),
        ensures
            final(self).wf_assoc(),
            final(self).entries == old(self).entries,
            final(self).next_id == old(self).next_id,
            final(self).dim == old(self).dim,
            session_step(old(self).sessions@, final(self).sessions@, id, now),
            old(self).assoc_consistent() && old(self).sessions@.len() < u64::MAX
                ==> final(self).assoc_consistent(),
            forall|a: u64, b: u64, o: int|
                b != id ==> #[trigger] edge_strength(final(self).edges@, a, b, o) == edge_strength(
                    old(self).edges@,
                    a,
                    b,
                    o,
                ),
    {
        let ghost old_ss = self.sessions@;
        let sid = session_id_exec(&self.sessions, now);
        let p = match next_position_exec(&self.sessions, sid) {
            None => {
                return ;
            },
            Some(p) => p,
        };
        let row = SessionRow { entry_id: id, session_id: sid, position: p, timestamp: now };
        proof {
            lemma_next_position(old_ss, sid);
        }
        self.sessions.push(row);
        let ghost new_ss = self.sessions@;
        proof {
            assert forall|i: int, j: int|
                0 <= i < j < new_ss.len() implies !((#[trigger] new_ss[i]).session_id == (
            #[trigger] new_ss[j]).session_id && new_ss[i].position == new_ss[j].position) by {
                if j < new_ss.len() - 1 {
                    assert(new_ss[i] == old_ss[i] && new_ss[j] == old_ss[j]);
                } else {
                    assert(new_ss[i] == old_ss[i] && new_ss[j] == row);
                }
            }
        }
        let ghost hyp = old(self).assoc_consistent() && old_ss.len() < u64::MAX;
        let mut o: u64 = 1;
        while o <= ASSOCIATION_DEPTH
            invariant
                1 <= o <= ASSOCIATION_DEPTH + 1,
                self.sessions@ == new_ss,
                new_ss == old_ss.push(row),
                row.entry_id == id,
                row.session_id == sid,
                row.position == p,
                p as int == next_position(old_ss, sid),
                sessions_unique(old_ss),
                self.entries == old(self).entries,
                self.next_id == old(self).next_id,
                self.dim == old(self).dim,
                edges_wf(self.edges@),
                hyp == (old(self).assoc_consistent() && old_ss.len() < u64::MAX),
                old(self).assoc_consistent() ==> forall|a: u64, b: u64, o2: int|
                    1 <= o2 <= ASSOCIATION_DEPTH ==> #[trigger] edge_strength(
                        old(self).edges@,
                        a,
                        b,
                        o2,
                    ) == pair_count(old_ss, a, b, o2),
                forall|a: u64, b: u64, o2: int|
                    b != id ==> #[trigger] edge_strength(self.edges@, a, b, o2) == edge_strength(
                        old(self).edges@,
                        a,
                        b,
                        o2,
                    ),
                hyp ==> forall|a: u64, b: u64, o2: int|
                    1 <= o2 <= ASSOCIATION_DEPTH ==> #[trigger] edge_strength(self.edges@, a, b, o2)
                        == if b == id && o2 < o {
                        pair_count(new_ss, a, b, o2)
                    } else {
                        pair_count(old_ss, a, b, o2)
                    },
            decreases ASSOCIATION_DEPTH + 1 - o,
        {
            let ghost pre_edges = self.edges@;
            if p >= o {
                let prev = find_prev(&self.sessions, sid, p - o);
                match prev {
                    Some(a0) => {
                        proof {
                            let k = choose|k: int|
                                0 <= k < new_ss.len() && (#[trigger] new_ss[k]).session_id == sid
                                    && new_ss[k].position == p - o && new_ss[k].entry_id == a0;
                            assert(new_ss[k] != row);
                            assert(k < old_ss.len() && old_ss[k] == new_ss[k]);
                            lemma_prev_count_found(old_ss, sid, p - o, k);
                            if hyp {
                                lemma_pair_count_bound(old_ss, a0, id, o as int);
                            }
                        }
                        bump_edge(&mut self.edges, a0, id, o, now);
                        proof {
                            if hyp {
                                assert forall|a: u64, b: u64, o2: int|
                                    1 <= o2 <= ASSOCIATION_DEPTH implies #[trigger] edge_strength(
                                    self.edges@,
                                    a,
                                    b,
                                    o2,
                                ) == if b == id && o2 < o + 1 {
                                    pair_count(new_ss, a, b, o2)
                                } else {
                                    pair_count(old_ss, a, b, o2)
                                } by {
                                    lemma_pair_count_push(old_ss, row, a, b, o2);
                                    if b == id && o2 == o {
                                        assert(end_inc(old_ss, row, a, id, o as int) == if a == a0 {
                                            1nat
                                        } else {
                                            0nat
                                        });
                                        if a == a0 {
                                            assert(edge_strength(pre_edges, a0, id, o as int)
                                                == pair_count(old_ss, a0, id, o as int));
                                            assert(edge_strength(pre_edges, a0, id, o as int)
                                                < u64::MAX);
                                        } else {
                                            assert(edge_strength(self.edges@, a, b, o2)
                                                == edge_strength(pre_edges, a, b, o2));
                                        }
                                    }
                                }
                            }
                        }
                    },
                    None => {
                        proof {
                            assert forall|i: int|
                                0 <= i < old_ss.len() implies !((#[trigger] old_ss[i]).session_id
                                == sid && old_ss[i].position == p - o) by {
                                assert(new_ss[i] == old_ss[i]);
                            }
                            lemma_prev_count_none(old_ss, sid, p - o);
                            if hyp {
                                assert forall|a: u64, b: u64, o2: int|
                                    1 <= o2 <= ASSOCIATION_DEPTH implies #[trigger] edge_strength(
                                    self.edges@,
                                    a,
                                    b,
                                    o2,
                                ) == if b == id && o2 < o + 1 {
                                    pair_count(new_ss, a, b, o2)
                                } else {
                                    pair_count(old_ss, a, b, o2)
                                } by {
                                    lemma_pair_count_push(old_ss, row, a, b, o2);
                                }
                            }
                        }
                    },
                }
            } else {
                proof {
                    assert forall|i: int|
                        0 <= i < old_ss.len() implies !((#[trigger] old_ss[i]).session_id == sid
                        && old_ss[i].position == p - o) by {}
                    lemma_prev_count_none(old_ss, sid, p - o);
                    if hyp {
                        assert forall|a: u64, b: u64, o2: int|
                            1 <= o2 <= ASSOCIATION_DEPTH implies #[trigger] edge_strength(
                            self.edges@,
                            a,
                            b,
                            o2,
                        ) == if b == id && o2 < o + 1 {
                            pair_count(new_ss, a, b, o2)
                        } else {
                            pair_count(old_ss, a, b, o2)
                        } by {
                            lemma_pair_count_push(old_ss, row, a, b, o2);
                        }
                    }
                }
            }
            o = o + 1;
        }
        proof {
            if hyp {
                assert forall|a: u64, b: u64, o2: int|
                    1 <= o2 <= ASSOCIATION_DEPTH implies #[trigger] edge_strength(
                    self.edges@,
                    a,
                    b,
                    o2,
                ) == pair_count(new_ss, a, b, o2) by {
                    if b != id {
                        lemma_pair_count_push(old_ss, row, a, b, o2);
                    }
                }
            }
        }
    }

    /// The mathematical value of the entry table.
    pub open spec fn entries_view(self) -> Seq<EntryV> {
        self.entries@.map_values(|e: Entry| e@)
    }

    /// Well-formedness of the entry table: unique ids below `next_id`,
    /// times-run at least 1, shell rows unique per (content, host), and
    /// every embedding of dimension `dim`.
    pub open spec fn wf_entries(self) -> bool {
        &&& forall|i: int, j: int|
            0 <= i < j < self.entries@.len() ==> (#[trigger] self.entries@[i])@.id != (
            #[trigger] self.entries@[j])@.id
        &&& forall|i: int|
            0 <= i < self.entries@.len() ==> (#[trigger] self.entries@[i])@.id < self.next_id
        &&& forall|i: int|
            0 <= i < self.entries@.len() ==> (#[trigger] self.entries@[i])@.times_run >= 1
        &&& forall|i: int, j: int|
            0 <= i < j < self.entries@.len() ==> !((#[trigger] self.entries@[i])@.entry_type
                == EntryType::Shell && (#[trigger] self.entries@[j])@.entry_type
                == EntryType::Shell && self.entries@[i]@.content == self.entries@[j]@.content
                && self.entries@[i]@.host == self.entries@[j]@.host)
        &&& forall|i: int|
            0 <= i < self.entries@.len() ==> match (#[trigger] self.entries@[i])@.embedding {
                Some(v) => v.len() == self.dim,
                None => true,
            }
    }

    /// Well-formedness of the session tracker and the edge set: positions
    /// unique within a session, edge triples unique, orders in range and
    /// strengths positive.
    pub open spec fn wf_assoc(self) -> bool {
        &&& forall|i: int, j: int|
            0 <= i < j < self.sessions@.len() ==> !((#[trigger] self.sessions@[i]).session_id == (
            #[trigger] self.sessions@[j]).session_id && self.sessions@[i].position
                == self.sessions@[j].position)
        &&& forall|i: int, j: int|
            0 <= i < j < self.edges@.len() ==> !((#[trigger] self.edges@[i]).command_a_id == (
            #[trigger] self.edges@[j]).command_a_id && self.edges@[i].command_b_id
                == self.edges@[j].command_b_id && self.edges@[i].sequence_order
                == self.edges@[j].sequence_order)
        &&& forall|i: int|
            0 <= i < self.edges@.len() ==> 1 <= (#[trigger] self.edges@[i]).sequence_order
                <= ASSOCIATION_DEPTH
        &&& forall|i: int| 0 <= i < self.edges@.len() ==> (#[trigger] self.edges@[i]).strength >= 1
    }

    /// Well-formedness of the whole store.
    pub open spec fn wf(self) -> bool {
        self.wf_entries() && self.wf_assoc()
    }

    /// An empty store for embeddings of dimension `dim`.
    pub fn new(dim: usize) -> (r: Store)
        ensures
            r.wf(),
            r.entries@.len() == 0,
            r.sessions@.len() == 0,
            r.edges@.len() == 0,
            r.next_id == 1,
            r.dim == dim,
    {
        Store { entries: Vec::new(), sessions: Vec::new(), edges: Vec::new(), next_id: 1, dim }
    }

    /// Insert a clipboard capture: always a fresh row, no deduplication.
    pub fn insert_clipboard(
        &mut self,
        content: Vec<u8>,
        timestamp: u64,
        app_name: Vec<u8>,
        window_title: Vec<u8>,
        embedding: Option<Vec<u32>>,
        now: u64,
    ) -> (id: u64)
        requires
            old(self).wf(),
            old(self).next_id < u64::MAX,
            match embedding {
                Some(v) => v@.len() == old(self).dim,
                None => true,
            },
        ensures
            final(self).wf(),
            id == old(self).next_id,
            final(self).next_id == old(self).next_id + 1,
            final(self).dim == old(self).dim,
            final(self).sessions == old(self).sessions,
            final(self).edges == old(self).edges,
            final(self).entries_view() == old(self).entries_view().push(
                EntryV {
                    id,
                    entry_type: EntryType::Clipboard,
                    content: content@,
                    timestamp,
                    times_run: 1,
                    working_dir: None,
                    git_repo: None,
                    git_branch: None,
                    user: None,
                    host: None,
                    app_name: Some(app_name@),
                    window_title: Some(window_title@),
                    embedding: opt_words(embedding),
                    created_at: now,
                    updated_at: now,
                },
            ),
    {
        let id = self.next_id;
        let e = Entry {
            id,
            entry_type: EntryType::Clipboard,
            content,
            timestamp,
            times_run: 1,
            working_dir: None,
            git_repo: None,
            git_branch: None,
            user: None,
            host: None,
            app_name: Some(app_name),
            window_title: Some(window_title),
            embedding,
            created_at: now,
            updated_at: now,
        };
        self.entries.push(e);
        self.next_id = id + 1;
        proof {
            assert(self.entries_view() =~= old(self).entries_view().push(e@));
        }
        id
    }

    /// Insert a shell command, deduplicating by (content, host): a repeat of
    /// an existing row bumps its times-run and refreshes its timestamps; a
    /// new (content, host) pair gets a fresh row. Either way the entry is
    /// appended to the current session and its co-occurrence edges are
    /// reinforced.
    pub fn insert_shell(
        &mut self,
        content: Vec<u8>,
        timestamp: u64,
        working_dir: Option<Vec<u8>>,
        user: Option<Vec<u8>>,
        host: Option<Vec<u8>>,
        app_name: Vec<u8>,
        window_title: Vec<u8>,
        embedding: Option<Vec<u32>>,
        now: u64,
    ) -> (id: u64)
        requires
            old(self).wf(),
            old(self).next_id < u64::MAX,
            match embedding {
                Some(v) => v@.len() == old(self).dim,
                None => true,
            },
        ensures
            final(self).wf(),
            final(self).dim == old(self).dim,
            match shell_find(old(self).entries_view(), content@, opt_bytes(host)) {
                Some(i) => {
                    &&& final(self).entries_view() == old(self).entries_view().update(
                        i,
                        bumped_entry(old(self).entries_view()[i], timestamp, now),
                    )
                    &&& id == old(self).entries_view()[i].id
                    &&& final(self).next_id == old(self).next_id
                },
                None => {
                    &&& final(self).entries_view() == old(self).entries_view().push(
                        EntryV {
                            id,
                            entry_type: EntryType::Shell,
                            content: content@,
                            timestamp,
                            times_run: 1,
                            working_dir: opt_bytes(working_dir),
                            git_repo: None,
                            git_branch: None,
                            user: opt_bytes(user),
                            host: opt_bytes(host),
                            app_name: Some(app_name@),
                            window_title: Some(window_title@),
                            embedding: opt_words(embedding),
                            created_at: now,
                            updated_at: now,
                        },
                    )
                    &&& id == old(self).next_id
                    &&& final(self).next_id == old(self).next_id + 1
                },
            },
            session_step(old(self).sessions@, final(self).sessions@, id, now),
            old(self).assoc_consistent() && old(self).sessions@.len() < u64::MAX
                ==> final(self).assoc_consistent(),
            forall|a: u64, b: u64, o: int|
                b != id ==> #[trigger] edge_strength(final(self).edges@, a, b, o) == edge_strength(
                    old(self).edges@,
                    a,
                    b,
                    o,
                ),
    {
        proof {
            lemma_shell_find(old(self).entries_view(), content@, opt_bytes(host));
        }
        let found = find_shell_index(&self.entries, &content, &host);
        let id: u64;
        match found {
            Some(i) => {
                let mut e2 = self.entries[i].duplicate();
                id = e2.id;
                if e2.times_run < u64::MAX {
                    e2.times_run = e2.times_run + 1;
                }
                e2.timestamp = timestamp;
                e2.updated_at = now;
                self.entries[i] = e2;
                proof {
                    assert(self.entries_view() =~= old(self).entries_view().update(
                        i as int,
                        bumped_entry(old(self).entries_view()[i as int], timestamp, now),
                    ));
                    assert forall|x: int, y: int|
                        0 <= x < y < self.entries@.len() implies (
                    #[trigger] self.entries@[x])@.id != (#[trigger] self.entries@[y])@.id by {
                        assert(self.entries@[x]@.id == old(self).entries@[x]@.id);
                        assert(self.entries@[y]@.id == old(self).entries@[y]@.id);
                    }
                    assert forall|x: int, y: int|
                        0 <= x < y < self.entries@.len() implies !((
                    #[trigger] self.entries@[x])@.entry_type == EntryType::Shell && (
                    #[trigger] self.entries@[y])@.entry_type == EntryType::Shell
                        && self.entries@[x]@.content == self.entries@[y]@.content
                        && self.entries@[x]@.host == self.entries@[y]@.host) by {
                        assert(self.entries@[x]@.entry_type == old(self).entries@[x]@.entry_type
                            && self.entries@[x]@.content == old(self).entries@[x]@.content
                            && self.entries@[x]@.host == old(self).entries@[x]@.host);
                        assert(self.entries@[y]@.entry_type == old(self).entries@[y]@.entry_type
                            && self.entries@[y]@.content == old(self).entries@[y]@.content
                            && self.entries@[y]@.host == old(self).entries@[y]@.host);
                    }
                    assert forall|x: int|
                        0 <= x < self.entries@.len() implies (#[trigger] self.entries@[x])@.id
                        < self.next_id && self.entries@[x]@.times_run >= 1 && match self.entries@[x]@.embedding {
                        Some(v) => v.len() == self.dim,
                        None => true,
                    } by {
                        assert(old(self).wf_entries());
                        if x != i as int {
                            assert(self.entries@[x] == old(self).entries@[x]);
                        }
                    }
                }
            },
            None => {
                id = self.next_id;
                let e = Entry {
                    id,
                    entry_type: EntryType::Shell,
                    content,
                    timestamp,
                    times_run: 1,
                    working_dir,
                    git_repo: None,
                    git_branch: None,
                    user,
                    host,
                    app_name: Some(app_name),
                    window_title: Some(window_title),
                    embedding,
                    created_at: now,
                    updated_at: now,
                };
                self.entries.push(e);
                self.next_id = id + 1;
                proof {
                    assert(self.entries_view() =~= old(self).entries_view().push(e@));
                    let n = old(self).entries@.len() as int;
                    assert forall|x: int, y: int|
                        0 <= x < y < self.entries@.len() implies !((
                    #[trigger] self.entries@[x])@.entry_type == EntryType::Shell && (
                    #[trigger] self.entries@[y])@.entry_type == EntryType::Shell
                        && self.entries@[x]@.content == self.entries@[y]@.content
                        && self.entries@[x]@.host == self.entries@[y]@.host) by {
                        if y == n {
                            assert(!is_shell_match(
                                old(self).entries_view()[x],
                                content@,
                                opt_bytes(host),
                            ));
                            assert(self.entries@[x] == old(self).entries@[x]);
                        } else {
                            assert(self.entries@[x] == old(self).entries@[x]);
                            assert(self.entries@[y] == old(self).entries@[y]);
                        }
                    }
                    assert forall|x: int, y: int|
                        0 <= x < y < self.entries@.len() implies (
                    #[trigger] self.entries@[x])@.id != (#[trigger] self.entries@[y])@.id by {
                        if y == n {
                            assert(self.entries@[x] == old(self).entries@[x]);
                            assert(old(self).entries@[x]@.id < old(self).next_id);
                        } else {
                            assert(self.entries@[x] == old(self).entries@[x]);
                            assert(self.entries@[y] == old(self).entries@[y]);
                        }
                    }
                }
            },
        }
        self.track_associations(id, now);
        id
    }
}

/// A weak edge: reinforced at most once and not seen for the pruning window.
pub open spec fn weak_edge(e: Edge, now: u64) -> bool {
    e.strength < 2 && e.last_seen + CLEAN_OLD_ASSOCIATIONS_DAYS * 86400 < now
}

/// An expired session row: older than the session pruning window.
pub open spec fn expired_session(r: SessionRow, now: u64) -> bool {
    r.timestamp + CLEAN_SESSIONS_DAYS * 86400 < now
}

/// Edge well-formedness survives any pruning.
proof fn lemma_edges_wf_filter(es: Seq<Edge>, pred: spec_fn(Edge) -> bool)
    requires
        edges_wf(es),
    ensures
        edges_wf(es.filter(pred)),
    decreases es.len(),
{
    reveal(Seq::filter);
    if es.len() > 0 {
        assert(edges_wf(es.drop_last())) by {
            assert(forall|i: int|
                0 <= i < es.drop_last().len() ==> #[trigger] es.drop_last()[i] == es[i]);
        }
        lemma_edges_wf_filter(es.drop_last(), pred);
        let f = es.filter(pred);
        let fd = es.drop_last().filter(pred);
        if pred(es.last()) {
            assert(f == fd.push(es.last()));
            lemma_filter_sub(es.drop_last(), pred);
            assert forall|i: int, j: int|
                0 <= i < j < f.len() implies !((#[trigger] f[i]).command_a_id == (
            #[trigger] f[j]).command_a_id && f[i].command_b_id == f[j].command_b_id
                && f[i].sequence_order == f[j].sequence_order) by {
                if j == f.len() - 1 {
                    assert(f[i] == fd[i]);
                    assert(es.drop_last().contains(fd[i]));
                    let k = choose|k: int|
                        0 <= k < es.drop_last().len() && es.drop_last()[k] == fd[i];
                    assert(es[k] == fd[i]);
                    assert(f[j] == es[es.len() - 1]);
                } else {
                    assert(f[i] == fd[i] && f[j] == fd[j]);
                }
            }
            assert forall|i: int|
                0 <= i < f.len() implies 1 <= (#[trigger] f[i]).sequence_order <= ASSOCIATION_DEPTH
                && f[i].strength >= 1 by {
                if i < f.len() - 1 {
                    assert(f[i] == fd[i]);
                } else {
                    assert(f[i] == es[es.len() - 1]);
                }
            }
        }
    }
}

/// Session uniqueness survives any pruning.
proof fn lemma_sessions_unique_filter(ss: Seq<SessionRow>, pred: spec_fn(SessionRow) -> bool)
    requires
        sessions_unique(ss),
    ensures
        sessions_unique(ss.filter(pred)),
    decreases ss.len(),
{
    reveal(Seq::filter);
    if ss.len() > 0 {
        assert(sessions_unique(ss.drop_last())) by {
            assert(forall|i: int|
                0 <= i < ss.drop_last().len() ==> #[trigger] ss.drop_last()[i] == ss[i]);
        }
        lemma_sessions_unique_filter(ss.drop_last(), pred);
        let f = ss.filter(pred);
        let fd = ss.drop_last().filter(pred);
        if pred(ss.last()) {
            assert(f == fd.push(ss.last()));
            lemma_filter_sub(ss.drop_last(), pred);
            assert forall|i: int, j: int|
                0 <= i < j < f.len() implies !((#[trigger] f[i]).session_id == (
            #[trigger] f[j]).session_id && f[i].position == f[j].position) by {
                if j == f.len() - 1 {
                    assert(f[i] == fd[i]);
                    assert(ss.drop_last().contains(fd[i]));
                    let k = choose|k: int|
                        0 <= k < ss.drop_last().len() && ss.drop_last()[k] == fd[i];
                    assert(ss[k] == fd[i]);
                    assert(f[j] == ss[ss.len() - 1]);
                } else {
                    assert(f[i] == fd[i] && f[j] == fd[j]);
                }
            }
        }
    }
}

impl Store {
    /// Delete edges with strength < 2 whose last observation lies more than
    /// the pruning window in the past; returns how many were deleted.
    pub fn cleanup_weak_associations(&mut self, now: u64) -> (deleted: usize)
        requires
            old(self).wf(),
        ensures
            final(self).wf(),
            final(self).entries == old(self).entries,
            final(self).sessions == old(self).sessions,
            final(self).next_id == old(self).next_id,
            final(self).dim == old(self).dim,
            final(self).edges@ == old(self).edges@.filter(|e: Edge| !weak_edge(e, now)),
            deleted == old(self).edges@.len() - final(self).edges@.len(),
    {
        let ghost pred = |e: Edge| !weak_edge(e, now);
        let n = self.edges.len();
        let mut kept: Vec<Edge> = Vec::new();
        let mut i: usize = 0;
        while i < n
            invariant
                i <= n,
                n == self.edges@.len(),
                self.edges@ == old(self).edges@,
                pred == (|e: Edge| !weak_edge(e, now)),
                kept@ == self.edges@.take(i as int).filter(pred),
            decreases n - i,
        {
            let e = self.edges[i];
            proof {
                lemma_filter_step(self.edges@, pred, i as int);
            }
            let keep = !(e.strength < 2 && now > CLEAN_OLD_ASSOCIATIONS_DAYS * 86400 && e.last_seen
                < now - CLEAN_OLD_ASSOCIATIONS_DAYS * 86400);
            proof {
                assert(keep == pred(e));
            }
            if keep {
                kept.push(e);
            }
            i = i + 1;
        }
        proof {
            assert(self.edges@.take(n as int) =~= self.edges@);
            self.edges@.lemma_filter_len(pred);
            lemma_edges_wf_filter(self.edges@, pred);
        }
        let deleted = n - kept.len();
        self.edges = kept;
        deleted
    }

    /// Delete session rows older than the session pruning window; returns how
    /// many were deleted.
    pub fn cleanup_old_sessions(&mut self, now: u64) -> (deleted: usize)
        requires
            old(self).wf(),
        ensures
            final(self).wf(),
            final(self).entries == old(self).entries,
            final(self).edges == old(self).edges,
            final(self).next_id == old(self).next_id,
            final(self).dim == old(self).dim,
            final(self).sessions@ == old(self).sessions@.filter(
                |r: SessionRow| !expired_session(r, now),
            ),
            deleted == old(self).sessions@.len() - final(self).sessions@.len(),
    {
        let ghost pred = |r: SessionRow| !expired_session(r, now);
        let n = self.sessions.len();
        let mut kept: Vec<SessionRow> = Vec::new();
        let mut i: usize = 0;
        while i < n
            invariant
                i <= n,
                n == self.sessions@.len(),
                self.sessions@ == old(self).sessions@,
                pred == (|r: SessionRow| !expired_session(r, now)),
                kept@ == self.sessions@.take(i as int).filter(pred),
            decreases n - i,
        {
            let r = self.sessions[i];
            proof {
                lemma_filter_step(self.sessions@, pred, i as int);
            }
            let keep = !(now > CLEAN_SESSIONS_DAYS * 86400 && r.timestamp < now - CLEAN_SESSIONS_DAYS
                * 86400);
            proof {
                assert(keep == pred(r));
            }
            if keep {
                kept.push(r);
            }
            i = i + 1;
        }
        proof {
            assert(self.sessions@.take(n as int) =~= self.sessions@);
            self.sessions@.lemma_filter_len(pred);
            lemma_sessions_unique_filter(self.sessions@, pred);
        }
        let deleted = n - kept.len();
        self.sessions = kept;
        deleted
    }

    /// Weak-edge prune followed by old-session prune; space reclamation is
    /// the durable layer's concern. Returns (edges deleted, sessions deleted).
    pub fn run_maintenance(&mut self, now: u64) -> (r: (usize, usize))
        requires
            old(self).wf(),
        ensures
            final(self).wf(),
            final(self).entries == old(self).entries,
            final(self).next_id == old(self).next_id,
            final(self).dim == old(self).dim,
            final(self).edges@ == old(self).edges@.filter(|e: Edge| !weak_edge(e, now)),
            final(self).sessions@ == old(self).sessions@.filter(
                |r: SessionRow| !expired_session(r, now),
            ),
            r.0 == old(self).edges@.len() - final(self).edges@.len(),
            r.1 == old(self).sessions@.len() - final(self).sessions@.len(),
    {
        let e = self.cleanup_weak_associations(now);
        let s = self.cleanup_old_sessions(now);
        (e, s)
    }

    /// The id of some shell entry with this content (any host), if one exists.
    pub fn get_shell_command_id(&self, content: &Vec<u8>) -> (r: Option<u64>)
        ensures
            match r {
                Some(id) => exists|i: int|
                    0 <= i < self.entries_view().len() && (#[trigger] self.entries_view()[i]).entry_type
                        == EntryType::Shell && self.entries_view()[i].content == content@
                        && self.entries_view()[i].id == id,
                None => forall|i: int|
                    0 <= i < self.entries_view().len() ==> !((
                    #[trigger] self.entries_view()[i]).entry_type == EntryType::Shell
                        && self.entries_view()[i].content == content@),
            },
    {
        let mut i: usize = 0;
        while i < self.entries.len()
            invariant
                i <= self.entries@.len(),
                forall|j: int|
                    0 <= j < i ==> !((#[trigger] self.entries_view()[j]).entry_type
                        == EntryType::Shell && self.entries_view()[j].content == content@),
            decreases self.entries@.len() - i,
        {
            let e = &self.entries[i];
            let is_shell = match e.entry_type {
                EntryType::Shell => true,
                _ => false,
            };
            if is_shell && crate::text::eq_bytes(e.content.as_slice(), content.as_slice()) {
                proof {
                    assert((self.entries_view()[i as int]).entry_type == EntryType::Shell
                        && self.entries_view()[i as int].content == content@
                        && self.entries_view()[i as int].id == e.id);
                }
                return Some(e.id);
            }
            i = i + 1;
        }
        None
    }

    /// Bump times-run and updated-at of the entry with this id, if present;
    /// a missing id leaves the store unchanged. Returns whether it was found.
    pub fn increment_shell_command(&mut self, id: u64, now: u64) -> (found: bool)
        requires
            old(self).wf(),
        ensures
            final(self).wf(),
            final(self).sessions == old(self).sessions,
            final(self).edges == old(self).edges,
            final(self).next_id == old(self).next_id,
            final(self).dim == old(self).dim,
            found == exists|i: int|
                0 <= i < old(self).entries_view().len() && (
                #[trigger] old(self).entries_view()[i]).id == id,
            if found {
                exists|i: int|
                    0 <= i < old(self).entries_view().len() && (
                    #[trigger] old(self).entries_view()[i]).id == id && final(self).entries_view()
                        == old(self).entries_view().update(
                        i,
                        EntryV {
                            times_run: bump_count(old(self).entries_view()[i].times_run),
                            updated_at: now,
                            ..old(self).entries_view()[i]
                        },
                    )
            } else {
                final(self).entries == old(self).entries
            },
    {
        let mut i: usize = 0;
        while i < self.entries.len()
            invariant
                old(self).wf(),
                self.entries == old(self).entries,
                self.sessions == old(self).sessions,
                self.edges == old(self).edges,
                self.next_id == old(self).next_id,
                self.dim == old(self).dim,
                i <= self.entries@.len(),
                forall|j: int| 0 <= j < i ==> (#[trigger] self.entries_view()[j]).id != id,
            decreases self.entries@.len() - i,
        {
            if self.entries[i].id == id {
                let mut e2 = self.entries[i].duplicate();
                if e2.times_run < u64::MAX {
                    e2.times_run = e2.times_run + 1;
                }
                e2.updated_at = now;
                self.entries[i] = e2;
                proof {
                    assert(old(self).entries_view()[i as int].id == id);
                    assert(self.entries_view() =~= old(self).entries_view().update(
                        i as int,
                        EntryV {
                            times_run: bump_count(old(self).entries_view()[i as int].times_run),
                            updated_at: now,
                            ..old(self).entries_view()[i as int]
                        },
                    ));
                    assert forall|x: int, y: int|
                        0 <= x < y < self.entries@.len() implies (
                    #[trigger] self.entries@[x])@.id != (#[trigger] self.entries@[y])@.id && !((
                    self.entries@[x])@.entry_type == EntryType::Shell && (
                    self.entries@[y])@.entry_type == EntryType::Shell && self.entries@[x]@.content
                        == self.entries@[y]@.content && self.entries@[x]@.host
                        == self.entries@[y]@.host) by {
                        assert(self.entries@[x]@.id == old(self).entries@[x]@.id
                            && self.entries@[x]@.entry_type == old(self).entries@[x]@.entry_type
                            && self.entries@[x]@.content == old(self).entries@[x]@.content
                            && self.entries@[x]@.host == old(self).entries@[x]@.host);
                        assert(self.entries@[y]@.id == old(self).entries@[y]@.id
                            && self.entries@[y]@.entry_type == old(self).entries@[y]@.entry_type
                            && self.entries@[y]@.content == old(self).entries@[y]@.content
                            && self.entries@[y]@.host == old(self).entries@[y]@.host);
                    }
                    assert forall|x: int|
                        0 <= x < self.entries@.len() implies (#[trigger] self.entries@[x])@.id
                        < self.next_id && self.entries@[x]@.times_run >= 1 && match self.entries@[x]@.embedding {
                        Some(v) => v.len() == self.dim,
                        None => true,
                    } by {
                        if x != i as int {
                            assert(self.entries@[x] == old(self).entries@[x]);
                        }
                    }
                }
                return true;
            }
            i = i + 1;
        }
        proof {
            assert(self.entries_view() =~= old(self).entries_view());
            assert(forall|j: int|
                0 <= j < old(self).entries_view().len() ==> (
                #[trigger] old(self).entries_view()[j]).id != id);
        }
        false
    }
}

/// Strict "more recent" order on entries: later timestamp wins, ties fall to
/// the larger (younger) id.
pub open spec fn entry_newer(a: EntryV, b: EntryV) -> bool {
    a.timestamp > b.timestamp || (a.timestamp == b.timestamp && a.id > b.id)
}

/// How many entries of the same kind are more recent than `e`.
pub open spec fn retention_rank(s: Seq<EntryV>, e: EntryV) -> nat {
    s.filter(|x: EntryV| x.entry_type == e.entry_type && entry_newer(x, e)).len()
}

/// Whether retention keeps `e`: it is among the `clip` most recent clipboard
/// rows, respectively the `shell` most recent shell rows.
pub open spec fn retention_keeps(s: Seq<EntryV>, e: EntryV, clip: usize, shell: usize) -> bool {
    match e.entry_type {
        EntryType::Clipboard => retention_rank(s, e) < clip,
        EntryType::Shell => retention_rank(s, e) < shell,
        EntryType::Any => true,
    }
}

/// The entry table after retention: per kind, only the most recent rows
/// within the cap survive, in their original order.
pub open spec fn retention_spec(s: Seq<EntryV>, clip: usize, shell: usize) -> Seq<EntryV> {
    s.filter(|e: EntryV| retention_keeps(s, e, clip, shell))
}

/// Retention enforcement is idempotent: applying it to its own result with
/// the same caps changes nothing.
pub proof fn lemma_retention_idempotent(s: Seq<EntryV>, clip: usize, shell: usize)
    ensures
        retention_spec(retention_spec(s, clip, shell), clip, shell) == retention_spec(
            s,
            clip,
            shell,
        ),
{
    let keep1 = |e: EntryV| retention_keeps(s, e, clip, shell);
    let t = s.filter(keep1);
    let keep2 = |e: EntryV| retention_keeps(t, e, clip, shell);
    lemma_filter_sub(s, keep1);
    assert forall|i: int| 0 <= i < t.len() implies keep2(#[trigger] t[i]) by {
        let e = t[i];
        let newer = |x: EntryV| x.entry_type == e.entry_type && entry_newer(x, e);
        lemma_filter_filter_le(s, keep1, newer);
        assert(retention_rank(t, e) <= retention_rank(s, e));
        assert(keep1(e));
    }
    lemma_filter_all(t, keep2);
}

/// The views of a sequence of entries.
pub open spec fn views_of(s: Seq<Entry>) -> Seq<EntryV> {
    s.map_values(|e: Entry| e@)
}

/// Ids pairwise distinct and shell rows unique per (content, host).
pub open spec fn entries_unique(s: Seq<EntryV>) -> bool {
    &&& forall|i: int, j: int| 0 <= i < j < s.len() ==> (#[trigger] s[i]).id != (#[trigger] s[j]).id
    &&& forall|i: int, j: int|
        0 <= i < j < s.len() ==> !((#[trigger] s[i]).entry_type == EntryType::Shell && (
        #[trigger] s[j]).entry_type == EntryType::Shell && s[i].content == s[j].content && s[i].host
            == s[j].host)
}

/// Entry uniqueness survives any pruning.
proof fn lemma_entries_unique_filter(s: Seq<EntryV>, pred: spec_fn(EntryV) -> bool)
    requires
        entries_unique(s),
    ensures
        entries_unique(s.filter(pred)),
    decreases s.len(),
{
    reveal(Seq::filter);
    if s.len() > 0 {
        assert(entries_unique(s.drop_last())) by {
            assert(forall|i: int|
                0 <= i < s.drop_last().len() ==> #[trigger] s.drop_last()[i] == s[i]);
        }
        lemma_entries_unique_filter(s.drop_last(), pred);
        let f = s.filter(pred);
        let fd = s.drop_last().filter(pred);
        if pred(s.last()) {
            assert(f == fd.push(s.last()));
            lemma_filter_sub(s.drop_last(), pred);
            assert forall|i: int, j: int|
                0 <= i < j < f.len() implies (#[trigger] f[i]).id != (#[trigger] f[j]).id && !((
            f[i]).entry_type == EntryType::Shell && (f[j]).entry_type == EntryType::Shell
                && f[i].content == f[j].content && f[i].host == f[j].host) by {
                if j == f.len() - 1 {
                    assert(f[i] == fd[i]);
                    assert(s.drop_last().contains(fd[i]));
                    let k = choose|k: int|
                        0 <= k < s.drop_last().len() && s.drop_last()[k] == fd[i];
                    assert(s[k] == fd[i]);
                    assert(f[j] == s[s.len() - 1]);
                } else {
                    assert(f[i] == fd[i] && f[j] == fd[j]);
                }
            }
        }
    }
}

/// Whether `a` is strictly more recent than `b` (see [`entry_newer`]).
pub fn entry_newer_exec(a: &Entry, b: &Entry) -> (r: bool)
    ensures
        r == entry_newer(a@, b@),
{
    a.timestamp > b.timestamp || (a.timestamp == b.timestamp && a.id > b.id)
}

/// Non-increasing recency: no later element is strictly newer than an
/// earlier one.
pub open spec fn entries_sorted_desc(s: Seq<EntryV>) -> bool {
    forall|i: int, j: int| 0 <= i < j < s.len() ==> !entry_newer(#[trigger] s[j], #[trigger] s[i])
}

/// Sort entries most recent first (timestamp, then id, descending).
fn sort_entries_desc(v: Vec<Entry>) -> (r: Vec<Entry>)
    ensures
        views_of(r@).to_multiset() == views_of(v@).to_multiset(),
        entries_sorted_desc(views_of(r@)),
{
    let ghost orig = views_of(v@);
    let mut src = v;
    let mut out: Vec<Entry> = Vec::new();
    proof {
        views_of(out@).to_multiset_ensures();
        assert(views_of(out@).to_multiset().add(views_of(src@).to_multiset()) =~= views_of(
            src@,
        ).to_multiset());
    }
    while src.len() > 0
        invariant
            views_of(out@).to_multiset().add(views_of(src@).to_multiset()) == orig.to_multiset(),
            entries_sorted_desc(views_of(out@)),
            forall|x: int, y: int|
                0 <= x < src@.len() && 0 <= y < out@.len() ==> !entry_newer(
                    #[trigger] views_of(src@)[x],
                    #[trigger] views_of(out@)[y],
                ),
        decreases src@.len(),
    {
        let mut m: usize = 0;
        let mut j: usize = 1;
        while j < src.len()
            invariant
                src@.len() > 0,
                m < j <= src@.len(),
                forall|k: int| 0 <= k < j ==> !entry_newer(#[trigger] views_of(src@)[k], views_of(src@)[m as int]),
            decreases src@.len() - j,
        {
            if entry_newer_exec(&src[j], &src[m]) {
                m = j;
            } else {
            }
            proof {
                assert(views_of(src@)[j as int] == src@[j as int]@);
            }
            j = j + 1;
        }
        let ghost pre_src = src@;
        let ghost pre_out = out@;
        let e = src.remove(m);
        out.push(e);
        proof {
            assert(views_of(pre_src)[m as int] == e@);
            assert(views_of(src@) =~= views_of(pre_src).remove(m as int));
            assert(views_of(out@) =~= views_of(pre_out).push(e@));
            views_of(pre_src).to_multiset_ensures();
            views_of(pre_out).to_multiset_ensures();
            assert(views_of(src@).to_multiset() =~= views_of(pre_src).to_multiset().remove(e@));
            assert(views_of(out@).to_multiset() =~= views_of(pre_out).to_multiset().insert(e@));
            assert(views_of(pre_src).to_multiset().count(e@) > 0) by {
                assert(views_of(pre_src)[m as int] == e@);
                assert(views_of(pre_src).contains(e@));
            }
            assert(views_of(out@).to_multiset().add(views_of(src@).to_multiset()) =~= orig.to_multiset());
            assert forall|x: int, y: int|
                0 <= x < src@.len() && 0 <= y < out@.len() implies !entry_newer(
                #[trigger] views_of(src@)[x],
                #[trigger] views_of(out@)[y],
            ) by {
                if y == out@.len() - 1 {
                    let xx = if x < m { x } else { x + 1 };
                    assert(views_of(src@)[x] == views_of(pre_src)[xx]);
                    assert(!entry_newer(views_of(pre_src)[xx], views_of(pre_src)[m as int]));
                } else {
                    let xx = if x < m { x } else { x + 1 };
                    assert(views_of(src@)[x] == views_of(pre_src)[xx]);
                    assert(views_of(out@)[y] == views_of(pre_out)[y]);
                }
            }
            assert forall|i: int, j2: int|
                0 <= i < j2 < views_of(out@).len() implies !entry_newer(
                #[trigger] views_of(out@)[j2],
                #[trigger] views_of(out@)[i],
            ) by {
                if j2 == out@.len() - 1 {
                    assert(views_of(out@)[i] == views_of(pre_out)[i]);
                    assert(views_of(out@)[j2] == views_of(pre_src)[m as int]);
                    assert(!entry_newer(views_of(pre_src)[m as int], views_of(pre_out)[i]));
                } else {
                    assert(views_of(out@)[i] == views_of(pre_out)[i]);
                    assert(views_of(out@)[j2] == views_of(pre_out)[j2]);
                }
            }
        }
    }
    proof {
        assert(views_of(src@).to_multiset() =~= Multiset::<EntryV>::empty()) by {
            views_of(src@).to_multiset_ensures();
        }
        assert(views_of(out@).to_multiset() =~= orig.to_multiset());
    }
    out
}

/// Whether an entry passes a query filter. The content filter is an
/// ASCII-case-insensitive substring match, as a LIKE filter gives.
pub open spec fn params_match(e: EntryV, q: QueryParams) -> bool {
    &&& match q.entry_type {
        Some(t) => e.entry_type == t,
        None => true,
    }
    &&& match q.content_search {
        Some(c) => crate::text::contains_seq(
            crate::text::lower_bytes_spec(e.content),
            crate::text::lower_bytes_spec(c@),
        ),
        None => true,
    }
    &&& match q.working_dir {
        Some(w) => e.working_dir == Some(w@),
        None => true,
    }
    &&& match q.app_name {
        Some(a) => e.app_name == Some(a@),
        None => true,
    }
    &&& match q.user {
        Some(u) => e.user == Some(u@),
        None => true,
    }
    &&& match q.host {
        Some(h) => e.host == Some(h@),
        None => true,
    }
}

/// Whether an entry passes a query filter.
fn params_match_exec(e: &Entry, q: &QueryParams) -> (r: bool)
    ensures
        r == params_match(e@, *q),
{
    let type_ok = match &q.entry_type {
        Some(t) => {
            let et: EntryType = e.entry_type;
            et == *t
        },
        None => true,
    };
    let content_ok = match &q.content_search {
        Some(c) => {
            let cl = crate::text::lower_bytes(e.content.as_slice());
            let ql = crate::text::lower_bytes(c.as_slice());
            crate::text::contains_bytes(cl.as_slice(), ql.as_slice())
        },
        None => true,
    };
    let wd_ok = match &q.working_dir {
        Some(w) => match &e.working_dir {
            Some(ew) => crate::text::eq_bytes(ew.as_slice(), w.as_slice()),
            None => false,
        },
        None => true,
    };
    let app_ok = match &q.app_name {
        Some(a) => match &e.app_name {
            Some(ea) => crate::text::eq_bytes(ea.as_slice(), a.as_slice()),
            None => false,
        },
        None => true,
    };
    let user_ok = match &q.user {
        Some(u) => match &e.user {
            Some(eu) => crate::text::eq_bytes(eu.as_slice(), u.as_slice()),
            None => false,
        },
        None => true,
    };
    let host_ok = match &q.host {
        Some(h) => match &e.host {
            Some(eh) => crate::text::eq_bytes(eh.as_slice(), h.as_slice()),
            None => false,
        },
        None => true,
    };
    type_ok && content_ok && wd_ok && app_ok && user_ok && host_ok
}

impl Store {
    /// Retention trim: keep the most recent `clipboard_limit` clipboard rows
    /// and the most recent `shell_limit` shell rows, delete the rest.
    pub fn cleanup_old_entries(&mut self, clipboard_limit: usize, shell_limit: usize)
        requires
            old(self).wf(),
        ensures
            final(self).wf(),
            final(self).sessions == old(self).sessions,
            final(self).edges == old(self).edges,
            final(self).next_id == old(self).next_id,
            final(self).dim == old(self).dim,
            final(self).entries_view() == retention_spec(
                old(self).entries_view(),
                clipboard_limit,
                shell_limit,
            ),
    {
        let ghost s = self.entries_view();
        let ghost keep = |e: EntryV| retention_keeps(s, e, clipboard_limit, shell_limit);
        let n = self.entries.len();
        let mut kept: Vec<Entry> = Vec::new();
        let mut i: usize = 0;
        while i < n
            invariant
                old(self).wf(),
                self.entries == old(self).entries,
                n == self.entries@.len(),
                s == self.entries_view(),
                keep == (|e: EntryV| retention_keeps(s, e, clipboard_limit, shell_limit)),
                i <= n,
                views_of(kept@) == s.take(i as int).filter(keep),
            decreases n - i,
        {
            let ghost e_v = s[i as int];
            let ghost newer = |x: EntryV| x.entry_type == e_v.entry_type && entry_newer(x, e_v);
            let mut cnt: usize = 0;
            let mut j: usize = 0;
            while j < n
                invariant
                    old(self).wf(),
                    self.entries == old(self).entries,
                    n == self.entries@.len(),
                    s == self.entries_view(),
                    i < n,
                    e_v == s[i as int],
                    newer == (|x: EntryV| x.entry_type == e_v.entry_type && entry_newer(x, e_v)),
                    j <= n,
                    cnt as int == s.take(j as int).filter(newer).len(),
                    cnt <= j,
                decreases n - j,
            {
                let same_kind = self.entries[j].entry_type == self.entries[i].entry_type;
                let is_newer = entry_newer_exec(&self.entries[j], &self.entries[i]);
                proof {
                    lemma_filter_step(s, newer, j as int);
                    assert(s[j as int] == self.entries@[j as int]@);
                }
                if same_kind && is_newer {
                    cnt = cnt + 1;
                }
                j = j + 1;
            }
            proof {
                assert(s.take(n as int) =~= s);
                assert(cnt as int == retention_rank(s, e_v));
            }
            let keep_i = match self.entries[i].entry_type {
                EntryType::Clipboard => cnt < clipboard_limit,
                EntryType::Shell => cnt < shell_limit,
                EntryType::Any => true,
            };
            proof {
                assert(keep_i == keep(e_v));
                lemma_filter_step(s, keep, i as int);
            }
            if keep_i {
                let d = self.entries[i].duplicate();
                kept.push(d);
                proof {
                    assert(views_of(kept@) =~= s.take(i as int).filter(keep).push(e_v));
                }
            }
            i = i + 1;
        }
        proof {
            assert(s.take(n as int) =~= s);
            assert(views_of(kept@) == retention_spec(s, clipboard_limit, shell_limit));
            lemma_entries_unique_filter(s, keep);
            lemma_filter_sub(s, keep);
            assert(entries_unique(s)) by {
                assert(forall|x: int|
                    0 <= x < s.len() ==> #[trigger] s[x] == self.entries@[x]@);
            }
        }
        self.entries = kept;
        proof {
            let f = views_of(self.entries@);
            assert(entries_unique(f));
            assert forall|x: int|
                0 <= x < self.entries@.len() implies (#[trigger] self.entries@[x])@.id
                < self.next_id && self.entries@[x]@.times_run >= 1 && match self.entries@[x]@.embedding {
                Some(v) => v.len() == self.dim,
                None => true,
            } by {
                assert(f[x] == self.entries@[x]@);
                assert(s.contains(f[x]));
                let k = choose|k: int| 0 <= k < s.len() && s[k] == f[x];
                assert(old(self).entries@[k]@ == f[x]);
            }
            assert forall|x: int, y: int|
                0 <= x < y < self.entries@.len() implies (#[trigger] self.entries@[x])@.id != (
            #[trigger] self.entries@[y])@.id && !((self.entries@[x])@.entry_type
                == EntryType::Shell && (self.entries@[y])@.entry_type == EntryType::Shell
                && self.entries@[x]@.content == self.entries@[y]@.content && self.entries@[x]@.host
                == self.entries@[y]@.host) by {
                assert(f[x] == self.entries@[x]@);
                assert(f[y] == self.entries@[y]@);
            }
        }
    }

    /// Every entry passing the filter, most recent first; `limit` caps the
    /// result length.
    pub fn query_entries(&self, params: &QueryParams) -> (r: Vec<Entry>)
        ensures
            exists|full: Seq<EntryV>|
                {
                    let filtered = self.entries_view().filter(
                        |e: EntryV| params_match(e, *params),
                    );
                    let n = match params.limit {
                        Some(l) => if l < full.len() {
                            l as int
                        } else {
                            full.len() as int
                        },
                        None => full.len() as int,
                    };
                    &&& #[trigger] full.to_multiset() == filtered.to_multiset()
                    &&& entries_sorted_desc(full)
                    &&& views_of(r@) == full.take(n)
                },
    {
        let ghost s = self.entries_view();
        let ghost pred = |e: EntryV| params_match(e, *params);
        let n = self.entries.len();
        let mut hits: Vec<Entry> = Vec::new();
        let mut i: usize = 0;
        while i < n
            invariant
                n == self.entries@.len(),
                s == self.entries_view(),
                pred == (|e: EntryV| params_match(e, *params)),
                i <= n,
                views_of(hits@) == s.take(i as int).filter(pred),
            decreases n - i,
        {
            proof {
                lemma_filter_step(s, pred, i as int);
                assert(s[i as int] == self.entries@[i as int]@);
            }
            if params_match_exec(&self.entries[i], params) {
                let d = self.entries[i].duplicate();
                hits.push(d);
                proof {
                    assert(views_of(hits@) =~= s.take(i as int).filter(pred).push(s[i as int]));
                }
            }
            i = i + 1;
        }
        proof {
            assert(s.take(n as int) =~= s);
        }
        let mut sorted = sort_entries_desc(hits);
        let ghost full = views_of(sorted@);
        match params.limit {
            Some(l) => {
                sorted.truncate(l);
                proof {
                    if l < full.len() {
                        assert(views_of(sorted@) =~= full.take(l as int));
                    } else {
                        assert(views_of(sorted@) =~= full.take(full.len() as int));
                    }
                }
            },
            None => {
                proof {
                    assert(views_of(sorted@) =~= full.take(full.len() as int));
                }
            },
        }
        sorted
    }
}

/// Whether two optional byte strings hold the same bytes.
pub fn opt_bytes_eq(a: &Option<Vec<u8>>, b: &Option<Vec<u8>>) -> (r: bool)
    ensures
        r == (opt_bytes(*a) == opt_bytes(*b)),
{
    match (a, b) {
        (None, None) => true,
        (Some(x), Some(y)) => crate::text::eq_bytes(x.as_slice(), y.as_slice()),
        _ => false,
    }
}

/// Index of the first shell entry with this (content, host), if any.
fn find_shell_index(entries: &Vec<Entry>, content: &Vec<u8>, host: &Option<Vec<u8>>) -> (r: Option<
    usize,
>)
    ensures
        match r {
            Some(i) => shell_find(
                entries@.map_values(|e: Entry| e@),
                content@,
                opt_bytes(*host),
            ) == Some(i as int),
            None => shell_find(entries@.map_values(|e: Entry| e@), content@, opt_bytes(*host))
                is None,
        },
{
    let ghost view = entries@.map_values(|e: Entry| e@);
    let mut i: usize = 0;
    while i < entries.len()
        invariant
            i <= entries@.len(),
            view == entries@.map_values(|e: Entry| e@),
            forall|j: int| 0 <= j < i ==> !is_shell_match(#[trigger] view[j], content@, opt_bytes(*host)),
        decreases entries@.len() - i,
    {
        let e = &entries[i];
        let is_shell = match e.entry_type {
            EntryType::Shell => true,
            _ => false,
        };
        if is_shell && crate::text::eq_bytes(e.content.as_slice(), content.as_slice())
            && opt_bytes_eq(&e.host, host) {
            proof {
                lemma_shell_find(view, content@, opt_bytes(*host));
                assert(is_shell_match(view[i as int], content@, opt_bytes(*host)));
                match shell_find(view, content@, opt_bytes(*host)) {
                    Some(i0) => {
                        if i0 < i {
                            assert(is_shell_match(view[i0], content@, opt_bytes(*host)));
                            assert(false);
                        }
                        if i0 > i as int {
                            assert(!is_shell_match(view[i as int], content@, opt_bytes(*host)));
                            assert(false);
                        }
                    },
                    None => {
                        assert(!is_shell_match(view[i as int], content@, opt_bytes(*host)));
                        assert(false);
                    },
                }
            }
            return Some(i);
        }
        i = i + 1;
    }
    proof {
        lemma_shell_find(view, content@, opt_bytes(*host));
        match shell_find(view, content@, opt_bytes(*host)) {
            Some(i0) => {
                assert(!is_shell_match(view[i0], content@, opt_bytes(*host)));
                assert(false);
            },
            None => {},
        }
    }
    None
}

} // verus!
