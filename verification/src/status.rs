//! Change detection.
//!
//! The pipeline is upsert-always: every fetched record is written whether
//! or not its content changed.  The content hash persisted on the "de"
//! row exists so that a caller can compare the store against the
//! lightweight status endpoint — a sequence of key and hash pairs — and
//! decide, out of band, whether a full re-fetch is warranted.

use vstd::prelude::*;

use crate::store::Collection;
use crate::store::RowV;

verus! {

/// The models of a status list, in order.
pub open spec fn status_view(st: Seq<(String, i64)>) -> Seq<(Seq<char>, int)>
    decreases st,
{
    if st.len() == 0 {
        Seq::empty()
    } else {
        seq![(st[0].0@, st[0].1 as int)] + status_view(st.drop_first())
    }
}

/// The model of a status list is entrywise the model of its entries.
pub proof fn lemma_status_view(st: Seq<(String, i64)>)
    ensures
        status_view(st).len() == st.len(),
        forall|i: int| 0 <= i < st.len() ==> status_view(st)[i] == (st[i].0@, st[i].1 as int),
    decreases st.len(),
{
    if st.len() > 0 {
        lemma_status_view(st.drop_first());
        assert(status_view(st) == seq![(st[0].0@, st[0].1 as int)] + status_view(st.drop_first()));
    }
}

/// The models of a key list, in order.
pub open spec fn keys_view(ks: Seq<String>) -> Seq<Seq<char>>
    decreases ks,
{
    if ks.len() == 0 {
        Seq::empty()
    } else {
        seq![ks[0]@] + keys_view(ks.drop_first())
    }
}

/// The model of a key list is keywise the model of its keys.
pub proof fn lemma_keys_view(ks: Seq<String>)
    ensures
        keys_view(ks).len() == ks.len(),
        forall|i: int| 0 <= i < ks.len() ==> keys_view(ks)[i] == ks[i]@,
    decreases ks.len(),
{
    if ks.len() > 0 {
        lemma_keys_view(ks.drop_first());
        assert(keys_view(ks) == seq![ks[0]@] + keys_view(ks.drop_first()));
    }
}

/// The key and hash pairs of the status table: the entries whose key and
/// hash are both present, in order.
pub open spec fn spec_pair_status(ids: Seq<Option<String>>, hs: Seq<Option<i64>>) -> Seq<
    (Seq<char>, int),
>
    decreases ids.len(),
{
    if ids.len() == 0 || hs.len() == 0 {
        Seq::empty()
    } else {
        let rest = spec_pair_status(ids.drop_first(), hs.drop_first());
        if ids[0] is Some && hs[0] is Some {
            seq![(ids[0]->0@, hs[0]->0 as int)] + rest
        } else {
            rest
        }
    }
}

/// Pair the key column with the hash column of the status table,
/// dropping the entries where either side is missing; order preserved.
pub fn pair_status(ids: &Vec<Option<String>>, hashes: &Vec<Option<i64>>) -> (r: Vec<(String, i64)>)
    ensures
        status_view(r@) == spec_pair_status(ids@, hashes@),
{
    let n: usize = if ids.len() < hashes.len() {
        ids.len()
    } else {
        hashes.len()
    };
    let mut out: Vec<(String, i64)> = Vec::new();
    let mut j: usize = 0;
    proof {
        assert(ids@.skip(0) =~= ids@);
        assert(hashes@.skip(0) =~= hashes@);
        assert(status_view(Seq::<(String, i64)>::empty()) =~= Seq::<(Seq<char>, int)>::empty());
        assert(Seq::<(Seq<char>, int)>::empty() + spec_pair_status(ids@, hashes@)
            =~= spec_pair_status(ids@, hashes@));
    }
    while j < n
        invariant
            j <= n,
            n <= ids@.len(),
            n <= hashes@.len(),
            n == ids@.len() || n == hashes@.len(),
            spec_pair_status(ids@, hashes@) == status_view(out@) + spec_pair_status(
                ids@.skip(j as int),
                hashes@.skip(j as int),
            ),
        decreases n - j,
    {
        let ghost out_pre = out@;
        proof {
            assert(ids@.skip(j as int)[0] == ids@[j as int]);
            assert(hashes@.skip(j as int)[0] == hashes@[j as int]);
            assert(ids@.skip(j as int).drop_first() =~= ids@.skip(j as int + 1));
            assert(hashes@.skip(j as int).drop_first() =~= hashes@.skip(j as int + 1));
        }
        match (&ids[j], &hashes[j]) {
            (Some(s), Some(h)) => {
                out.push((s.clone(), *h));
                proof {
                    lemma_status_view(out@);
                    lemma_status_view(out_pre);
                    assert(status_view(out@) =~= status_view(out_pre).push(
                        (ids@[j as int]->0@, hashes@[j as int]->0 as int),
                    ));
                    assert(status_view(out_pre) + (seq![
                        (ids@[j as int]->0@, hashes@[j as int]->0 as int),
                    ] + spec_pair_status(ids@.skip(j as int + 1), hashes@.skip(j as int + 1)))
                        =~= status_view(out@) + spec_pair_status(
                        ids@.skip(j as int + 1),
                        hashes@.skip(j as int + 1),
                    ));
                }
            },
            _ => {},
        }
        j += 1;
    }
    proof {
        if n == ids@.len() {
            assert(ids@.skip(n as int) =~= Seq::<Option<String>>::empty());
        } else {
            assert(hashes@.skip(n as int) =~= Seq::<Option<i64>>::empty());
        }
        assert(spec_pair_status(ids@.skip(n as int), hashes@.skip(n as int)) =~= Seq::<
            (Seq<char>, int),
        >::empty());
        assert(status_view(out@) + Seq::<(Seq<char>, int)>::empty() =~= status_view(out@));
    }
    out
}

/// Whether a status entry is stale against a collection: its key is
/// absent, or stored under a different hash.
pub open spec fn spec_stale(k: Seq<char>, h: int, m: Map<Seq<char>, RowV>) -> bool {
    !m.contains_key(k) || m[k].hash != Some(h)
}

/// The stale keys of a status list against a collection, in order.
pub open spec fn spec_stale_keys(st: Seq<(Seq<char>, int)>, m: Map<Seq<char>, RowV>) -> Seq<
    Seq<char>,
>
    decreases st.len(),
{
    if st.len() == 0 {
        Seq::empty()
    } else {
        let rest = spec_stale_keys(st.drop_first(), m);
        if spec_stale(st[0].0, st[0].1, m) {
            seq![st[0].0] + rest
        } else {
            rest
        }
    }
}

/// The keys the status endpoint reports under a different hash than the
/// collection holds (or not held at all): the records worth re-fetching.
pub fn stale_keys(status: &Vec<(String, i64)>, rows: &Collection) -> (r: Vec<String>)
    requires
        rows.wf(),
    ensures
        keys_view(r@) == spec_stale_keys(status_view(status@), rows@),
{
    let ghost st = status_view(status@);
    proof {
        lemma_status_view(status@);
        assert(st.skip(0) =~= st);
        assert(keys_view(Seq::<String>::empty()) =~= Seq::<Seq<char>>::empty());
        assert(Seq::<Seq<char>>::empty() + spec_stale_keys(st, rows@) =~= spec_stale_keys(
            st,
            rows@,
        ));
    }
    let mut out: Vec<String> = Vec::new();
    let mut j: usize = 0;
    while j < status.len()
        invariant
            j <= status@.len(),
            rows.wf(),
            st == status_view(status@),
            st.len() == status@.len(),
            forall|i: int| 0 <= i < st.len() ==> st[i] == (status@[i].0@, status@[i].1 as int),
            spec_stale_keys(st, rows@) == keys_view(out@) + spec_stale_keys(
                st.skip(j as int),
                rows@,
            ),
        decreases status@.len() - j,
    {
        let ghost out_pre = out@;
        proof {
            assert(st.skip(j as int)[0] == st[j as int]);
            assert(st.skip(j as int).drop_first() =~= st.skip(j as int + 1));
        }
        let stale: bool = match rows.get(status[j].0.as_str()) {
            None => true,
            Some(row) => {
                match row.hash {
                    Some(h0) => h0 != status[j].1,
                    None => true,
                }
            },
        };
        if stale {
            out.push(status[j].0.clone());
            proof {
                lemma_keys_view(out@);
                lemma_keys_view(out_pre);
                assert(keys_view(out@) =~= keys_view(out_pre).push(st[j as int].0));
                assert(keys_view(out_pre) + (seq![st[j as int].0] + spec_stale_keys(
                    st.skip(j as int + 1),
                    rows@,
                )) =~= keys_view(out@) + spec_stale_keys(st.skip(j as int + 1), rows@));
            }
        }
        j += 1;
    }
    proof {
        assert(st.skip(st.len() as int) =~= Seq::<(Seq<char>, int)>::empty());
        assert(spec_stale_keys(Seq::empty(), rows@) =~= Seq::<Seq<char>>::empty());
        assert(keys_view(out@) + Seq::<Seq<char>>::empty() =~= keys_view(out@));
    }
    out
}

} // verus!
