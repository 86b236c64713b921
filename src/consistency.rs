use vstd::prelude::*;
use crate::database::{Database, holds_in, inserted, updated, dropped, reaches, cites, refers};
use crate::value::{Value, ref_of};

verus! {

/// No two rows of the database, in any tables, share an id.
pub proof fn lemma_row_ids_unique(db: Database)
    requires
        db.wf(),
    ensures
        forall|i: int, j: int|
            0 <= i < db.rows@.len() && 0 <= j < db.rows@.len() && i != j ==> db.rows@[i].id != db.rows@[j].id,
{
    assert forall|i: int, j: int|
        0 <= i < db.rows@.len() && 0 <= j < db.rows@.len() && i != j implies db.rows@[i].id != db.rows@[j].id by {
        if i < j {
            assert(db.rows@[i].id < db.rows@[j].id);
        } else {
            assert(db.rows@[j].id < db.rows@[i].id);
        }
    }
}

/// An insert's id differs from the id of every row present before it, and two
/// successful inserts, the second made after the first, never give the same id,
/// whatever tables they address. Between them, any operation may run: none lowers `next`.
pub proof fn lemma_insert_ids_distinct(
    a: Database,
    b: Database,
    c: Database,
    d: Database,
    t1: i32,
    v1: Seq<Value>,
    id1: i64,
    t2: i32,
    v2: Seq<Value>,
    id2: i64,
)
    requires
        inserted(a, b, t1, v1, id1),
        b.next <= c.next,
        inserted(c, d, t2, v2, id2),
    ensures
        id1 < id2,
        forall|i: int| 0 <= i < a.rows@.len() ==> a.rows@[i].id != id1,
{
}

/// A successful update leaves the row in place and gives it the returned version,
/// one more than before.
pub proof fn lemma_update_advances_version(
    a: Database,
    b: Database,
    t: i32,
    id: i64,
    expected: i64,
    vals: Seq<Value>,
    v: i64,
)
    requires
        updated(a, b, t, id, expected, vals, v),
    ensures
        b.holds(t as int, id as int),
        b.version_of(t as int, id as int) == v,
        v == a.version_of(t as int, id as int) + 1,
{
    let k = a.index_of(t as int, id as int);
    assert(b.rows@[k].table == t && b.rows@[k].id == id);
    let j = b.index_of(t as int, id as int);
    if j < k {
        assert(b.rows@[j].id < b.rows@[k].id);
    }
    if k < j {
        assert(b.rows@[k].id < b.rows@[j].id);
    }
}

/// Along a chain of successful updates of one row, created with version 1, the
/// version after `n` updates is `n + 1`: versions strictly increase.
/// Update `k` took `states[k]` to `states[k + 1]` with expected version `expected[k]`
/// and values `vals[k]`, and returned `versions[k]`.
pub proof fn lemma_versions_count_updates(
    states: Seq<Database>,
    expected: Seq<i64>,
    vals: Seq<Seq<Value>>,
    versions: Seq<i64>,
    t: i32,
    id: i64,
    n: int,
)
    requires
        0 <= n < states.len(),
        states[0].wf(),
        states[0].holds(t as int, id as int),
        states[0].version_of(t as int, id as int) == 1,
        forall|k: int|
            0 <= k < states.len() - 1 ==> #[trigger] updated(states[k], states[k + 1], t, id, expected[k], vals[k], versions[k]),
    ensures
        states[n].holds(t as int, id as int),
        states[n].version_of(t as int, id as int) == n + 1,
        n > 0 ==> versions[n - 1] == n + 1,
    decreases n,
{
    if n > 0 {
        lemma_versions_count_updates(states, expected, vals, versions, t, id, n - 1);
        assert(updated(states[n - 1], states[n], t, id, expected[n - 1], vals[n - 1], versions[n - 1]));
        lemma_update_advances_version(states[n - 1], states[n], t, id, expected[n - 1], vals[n - 1], versions[n - 1]);
    }
}

/// In a consistent database every non-zero foreign value names an existing row
/// of the table that its column references.
pub proof fn lemma_references_resolve(db: Database, i: int, c: int)
    requires
        db.wf(),
        0 <= i < db.rows@.len(),
        0 <= c < db.rows@[i].data@.len(),
        ref_of(db.rows@[i].data@[c]) != 0,
    ensures
        holds_in(db.rows@, db.cols(db.rows@[i].table as int)[c].c_ref as int, ref_of(db.rows@[i].data@[c]) as int),
{
}

/// After a drop, a row whose foreign value named a row that is gone is gone too;
/// applied to each removed row in turn, this removes every direct or indirect dependent.
pub proof fn lemma_cascade_complete(a: Database, b: Database, t: i32, id: i64, k: int, c: int)
    requires
        dropped(a, b, t, id),
        0 <= k < a.rows@.len(),
        0 <= c < a.rows@[k].data@.len(),
        ref_of(a.rows@[k].data@[c]) != 0,
        !holds_in(b.rows@, a.cols(a.rows@[k].table as int)[c].c_ref as int, ref_of(a.rows@[k].data@[c]) as int),
    ensures
        !b.rows@.contains(a.rows@[k]),
{
    if b.rows@.contains(a.rows@[k]) {
        let j = choose|j: int| 0 <= j < b.rows@.len() && b.rows@[j] == a.rows@[k];
        assert(b.rows@[j].data@[c] == a.rows@[k].data@[c]);
    }
}

/// Cascade completeness: after dropping row `id`, no row remains that led to it
/// through a chain of references of any length, direct or indirect.
pub proof fn lemma_cascade_transitive(a: Database, b: Database, t: i32, id: i64, k: int, n: nat)
    requires
        dropped(a, b, t, id),
        0 <= k < a.rows@.len(),
        reaches(a.rows@, a.rows@[k].id, id, n),
    ensures
        !b.rows@.contains(a.rows@[k]),
    decreases n,
{
    let o = a.rows@;
    if b.rows@.contains(o[k]) {
        let m = choose|m: int| 0 <= m < b.rows@.len() && b.rows@[m] == o[k];
        if n == 0 || reaches(o, o[k].id, id, (n - 1) as nat) {
            if n == 0 {
                // row `k` is the dropped row itself
                let w = choose|w: int| 0 <= w < o.len() && o[w].table == t && o[w].id == id;
                if w != k {
                    if w < k { assert(o[w].id < o[k].id); } else { assert(o[k].id < o[w].id); }
                }
                assert(b.rows@[m].table == t && b.rows@[m].id == id);
                assert(b.holds(t as int, id as int));
            } else {
                lemma_cascade_transitive(a, b, t, id, k, (n - 1) as nat);
            }
        } else {
            let x = choose|x: i64| #[trigger] cites(o, o[k].id, x) && reaches(o, x, id, (n - 1) as nat);
            let i = choose|i: int| 0 <= i < o.len() && o[i].id == o[k].id && refers(o[i].data@, x);
            if i != k {
                if i < k { assert(o[i].id < o[k].id); } else { assert(o[k].id < o[i].id); }
            }
            let c = choose|c: int| 0 <= c < o[k].data@.len() && ref_of(#[trigger] o[k].data@[c]) == x;
            // the referenced row existed before the drop
            assert(b.rows@[m] == o[k]);
            let rt = a.cols(o[k].table as int)[c].c_ref as int;
            assert(holds_in(o, rt, x as int));
            let j = choose|j: int| 0 <= j < o.len() && o[j].table == rt && o[j].id == x;
            lemma_cascade_transitive(a, b, t, id, j, (n - 1) as nat);
            // and it still exists after it, since row `k` still refers to it
            assert(b.rows@[m].data@[c] == o[k].data@[c]);
            assert(holds_in(b.rows@, rt, x as int));
            let q = choose|q: int| 0 <= q < b.rows@.len() && b.rows@[q].table == rt && b.rows@[q].id == x;
            assert(a.rows@.contains(b.rows@[q]));
            let j2 = choose|j2: int| 0 <= j2 < o.len() && o[j2] == b.rows@[q];
            if j2 != j {
                if j2 < j { assert(o[j2].id < o[j].id); } else { assert(o[j].id < o[j2].id); }
            }
            assert(b.rows@.contains(o[j]));
        }
    }
}

/// An update of an existing row with acceptable values but a non-zero expected
/// version other than the row's current one is refused as a conflict (and
/// `handle_update` then leaves the database as it was).
pub proof fn lemma_stale_version_aborts(db: Database, t: i32, id: i64, expected: i64, vals: Seq<Value>)
    requires
        db.values_error(t, vals) is None,
        db.holds(t as int, id as int),
        expected != 0,
        expected != db.version_of(t as int, id as int),
    ensures
        db.update_error(t, id, expected, vals) == Some(crate::packet::ErrorCode::TxnAbort),
{
}

} // verus!
