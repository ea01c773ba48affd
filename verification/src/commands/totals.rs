//! How the report of `log` groups records: its days and names come in order, each once,
//! and their totals add up to the grand total.

use vstd::prelude::*;
use crate::commands::log::{
    day_list, date_slot, entry_name, entry_span, insert_date, insert_name, name_list, name_slot,
    on_day, span_total, with_name,
};
use crate::store::Entry;
use crate::text::{lemma_lex_irreflexive, lemma_lex_total, lemma_lex_transitive, lex_lt};
use crate::time::CivilDate;

verus! {

/// The sum, over the keys `ks`, of the spans of the records whose key is each.
pub open spec fn keyed_total<K>(es: Seq<Entry>, key: spec_fn(Entry) -> K, ks: Seq<K>) -> int
    decreases ks.len(),
{
    if ks.len() == 0 {
        0
    } else {
        keyed_total(es, key, ks.drop_last()) + span_total(es.filter(|e: Entry| key(e) == ks.last()))
    }
}

/// The sum of the totals that the summary of `log` prints for the names `ns`.
pub open spec fn name_totals(es: Seq<Entry>, ns: Seq<Seq<char>>) -> int
    decreases ns.len(),
{
    if ns.len() == 0 {
        0
    } else {
        name_totals(es, ns.drop_last()) + span_total(with_name(es, ns.last()))
    }
}

/// The sum of the totals of the days `ds`.
pub open spec fn day_totals(es: Seq<Entry>, ds: Seq<CivilDate>) -> int
    decreases ds.len(),
{
    if ds.len() == 0 {
        0
    } else {
        day_totals(es, ds.drop_last()) + span_total(on_day(es, ds.last()))
    }
}

proof fn lemma_span_total_push(s: Seq<Entry>, e: Entry)
    ensures
        span_total(s.push(e)) == span_total(s) + entry_span(e),
{
    assert(s.push(e).drop_last() =~= s);
}

proof fn lemma_keyed_empty<K>(key: spec_fn(Entry) -> K, ks: Seq<K>)
    ensures
        keyed_total(Seq::<Entry>::empty(), key, ks) == 0,
    decreases ks.len(),
{
    if ks.len() > 0 {
        lemma_keyed_empty(key, ks.drop_last());
        let p = |e: Entry| key(e) == ks.last();
        Seq::<Entry>::empty().lemma_filter_len(p);
        assert(Seq::<Entry>::empty().filter(p) =~= Seq::<Entry>::empty());
    }
}

proof fn lemma_keyed_push<K>(es: Seq<Entry>, e: Entry, key: spec_fn(Entry) -> K, ks: Seq<K>)
    requires
        ks.no_duplicates(),
    ensures
        keyed_total(es.push(e), key, ks) == keyed_total(es, key, ks) + if ks.contains(key(e)) {
            entry_span(e)
        } else {
            0
        },
    decreases ks.len(),
{
    if ks.len() > 0 {
        let front = ks.drop_last();
        let l = ks.last();
        assert forall|i: int, j: int| 0 <= i < front.len() && 0 <= j < front.len() && i != j implies front[i]
            != front[j] by {
            assert(front[i] == ks[i] && front[j] == ks[j]);
        }
        lemma_keyed_push(es, e, key, front);
        let p = |x: Entry| key(x) == l;
        es.lemma_filter_push(e, p);
        lemma_span_total_push(es.filter(p), e);
        if front.contains(key(e)) {
            let i = choose|i: int| 0 <= i < front.len() && front[i] == key(e);
            assert(ks[i] == front[i]);
            if l == key(e) {
                assert(ks[ks.len() - 1] == l);
            }
            assert(ks.contains(key(e)));
        } else if l == key(e) {
            assert(ks[ks.len() - 1] == l);
            assert(ks.contains(key(e)));
        } else {
            assert forall|i: int| 0 <= i < ks.len() implies ks[i] != key(e) by {
                if i < ks.len() - 1 {
                    assert(ks[i] == front[i]);
                }
            }
        }
    }
}

/// Summed over keys that occur once each and cover every record, the records of each key
/// give the sum of all records.
proof fn lemma_keyed_partition<K>(es: Seq<Entry>, key: spec_fn(Entry) -> K, ks: Seq<K>)
    requires
        ks.no_duplicates(),
        forall|i: int| 0 <= i < es.len() ==> ks.contains(key(#[trigger] es[i])),
    ensures
        keyed_total(es, key, ks) == span_total(es),
    decreases es.len(),
{
    if es.len() == 0 {
        assert(es =~= Seq::<Entry>::empty());
        lemma_keyed_empty(key, ks);
    } else {
        let front = es.drop_last();
        let e = es.last();
        assert(front.push(e) =~= es);
        assert forall|i: int| 0 <= i < front.len() implies ks.contains(key(#[trigger] front[i])) by {
            assert(front[i] == es[i]);
        }
        lemma_keyed_partition(front, key, ks);
        lemma_keyed_push(front, e, key, ks);
        assert(ks.contains(key(es[es.len() - 1])));
    }
}

proof fn lemma_name_totals_keyed(es: Seq<Entry>, ns: Seq<Seq<char>>)
    ensures
        name_totals(es, ns) == keyed_total(es, |e: Entry| entry_name(e), ns),
    decreases ns.len(),
{
    if ns.len() > 0 {
        lemma_name_totals_keyed(es, ns.drop_last());
        let key = |e: Entry| entry_name(e);
        assert((|e: Entry| key(e) == ns.last()) =~= (|e: Entry| entry_name(e) == ns.last()));
    }
}

proof fn lemma_day_totals_keyed(es: Seq<Entry>, ds: Seq<CivilDate>)
    ensures
        day_totals(es, ds) == keyed_total(es, |e: Entry| e.started_at.date, ds),
    decreases ds.len(),
{
    if ds.len() > 0 {
        lemma_day_totals_keyed(es, ds.drop_last());
        let key = |e: Entry| e.started_at.date;
        assert((|e: Entry| key(e) == ds.last()) =~= (|e: Entry| e.started_at.date == ds.last()));
    }
}

proof fn lemma_name_slot_bounds(ns: Seq<Seq<char>>, n: Seq<char>)
    ensures
        name_slot(ns, n) <= ns.len(),
        forall|j: int| 0 <= j < name_slot(ns, n) ==> lex_lt(#[trigger] ns[j], n),
        name_slot(ns, n) < ns.len() ==> !lex_lt(ns[name_slot(ns, n) as int], n),
    decreases ns.len(),
{
    if ns.len() > 0 && lex_lt(ns[0], n) {
        let t = ns.drop_first();
        lemma_name_slot_bounds(t, n);
        assert forall|j: int| 0 <= j < name_slot(ns, n) implies lex_lt(#[trigger] ns[j], n) by {
            if j > 0 {
                assert(ns[j] == t[j - 1]);
            }
        }
    }
}

/// The summary of `log` lists the names in `String` order, each once, and every record's
/// name among them.
pub proof fn law_names_in_order(es: Seq<Entry>)
    ensures
        forall|i: int, j: int| 0 <= i < j < name_list(es).len() ==> lex_lt(name_list(es)[i], name_list(es)[j]),
        forall|i: int| 0 <= i < es.len() ==> name_list(es).contains(entry_name(#[trigger] es[i])),
    decreases es.len(),
{
    if es.len() > 0 {
        let front = es.drop_last();
        law_names_in_order(front);
        let ns = name_list(front);
        let n = entry_name(es.last());
        let p = name_slot(ns, n) as int;
        lemma_name_slot_bounds(ns, n);
        let w = insert_name(ns, n);
        assert(w == name_list(es));
        if p < ns.len() && ns[p] == n {
            assert(w[p] == n);
        } else {
            if p < ns.len() {
                lemma_lex_total(ns[p], n);
            }
            assert(w[p] == n);
            assert forall|a: int, b: int| 0 <= a < b < w.len() implies lex_lt(w[a], w[b]) by {
                if b < p {
                    assert(w[a] == ns[a] && w[b] == ns[b]);
                } else if b == p {
                    assert(w[a] == ns[a]);
                } else if a == p {
                    assert(w[b] == ns[b - 1]);
                    if b - 1 > p {
                        lemma_lex_transitive(n, ns[p], ns[b - 1]);
                    }
                } else if a < p {
                    assert(w[a] == ns[a]);
                    assert(w[b] == ns[b - 1]);
                } else {
                    assert(w[a] == ns[a - 1]);
                    assert(w[b] == ns[b - 1]);
                }
            }
        }
        assert forall|i: int| 0 <= i < es.len() implies w.contains(entry_name(#[trigger] es[i])) by {
            if i < es.len() - 1 {
                assert(es[i] == front[i]);
                assert(ns.contains(entry_name(front[i])));
                let k = choose|k: int| 0 <= k < ns.len() && ns[k] == entry_name(front[i]);
                if !(p < ns.len() && ns[p] == n) {
                    if k < p {
                        assert(w[k] == ns[k]);
                    } else {
                        assert(w[k + 1] == ns[k]);
                    }
                }
            } else {
                assert(w[p] == n);
            }
        }
    }
}

proof fn lemma_date_slot_bounds(ds: Seq<CivilDate>, d: CivilDate)
    ensures
        date_slot(ds, d) <= ds.len(),
        forall|j: int| 0 <= j < date_slot(ds, d) ==> (#[trigger] ds[j]).before(d),
        date_slot(ds, d) < ds.len() ==> !ds[date_slot(ds, d) as int].before(d),
    decreases ds.len(),
{
    if ds.len() > 0 && ds[0].before(d) {
        let t = ds.drop_first();
        lemma_date_slot_bounds(t, d);
        assert forall|j: int| 0 <= j < date_slot(ds, d) implies (#[trigger] ds[j]).before(d) by {
            if j > 0 {
                assert(ds[j] == t[j - 1]);
            }
        }
    }
}

/// `log` shows the days in calendar order, each once, and every record's starting day
/// among them.
pub proof fn law_days_in_order(es: Seq<Entry>)
    ensures
        forall|i: int, j: int| 0 <= i < j < day_list(es).len() ==> (#[trigger] day_list(es)[i]).before(
            #[trigger] day_list(es)[j],
        ),
        forall|i: int| 0 <= i < es.len() ==> day_list(es).contains((#[trigger] es[i]).started_at.date),
    decreases es.len(),
{
    if es.len() > 0 {
        let front = es.drop_last();
        law_days_in_order(front);
        let ds = day_list(front);
        let d = es.last().started_at.date;
        let p = date_slot(ds, d) as int;
        lemma_date_slot_bounds(ds, d);
        let w = insert_date(ds, d);
        assert(w == day_list(es));
        if p < ds.len() && ds[p] == d {
            assert(w[p] == d);
        } else {
            assert(w[p] == d);
            assert forall|a: int, b: int| 0 <= a < b < w.len() implies (#[trigger] w[a]).before(#[trigger] w[b]) by {
                if b < p {
                    assert(w[a] == ds[a] && w[b] == ds[b]);
                } else if b == p {
                    assert(w[a] == ds[a]);
                } else if a == p {
                    assert(w[b] == ds[b - 1]);
                    if b - 1 > p {
                        assert(ds[p].before(ds[b - 1]));
                    }
                } else if a < p {
                    assert(w[a] == ds[a]);
                    assert(w[b] == ds[b - 1]);
                } else {
                    assert(w[a] == ds[a - 1]);
                    assert(w[b] == ds[b - 1]);
                    assert(ds[a - 1].before(ds[b - 1]));
                }
            }
        }
        assert forall|i: int| 0 <= i < es.len() implies w.contains((#[trigger] es[i]).started_at.date) by {
            if i < es.len() - 1 {
                assert(es[i] == front[i]);
                assert(ds.contains(front[i].started_at.date));
                let k = choose|k: int| 0 <= k < ds.len() && ds[k] == front[i].started_at.date;
                if !(p < ds.len() && ds[p] == d) {
                    if k < p {
                        assert(w[k] == ds[k]);
                    } else {
                        assert(w[k + 1] == ds[k]);
                    }
                }
            } else {
                assert(w[p] == d);
            }
        }
    }
}

/// The totals by name add up to the grand total: in the summary of `log` every record is
/// counted under exactly one name.
pub proof fn law_name_totals_add_up(es: Seq<Entry>)
    ensures
        name_totals(es, name_list(es)) == span_total(es),
{
    let ns = name_list(es);
    law_names_in_order(es);
    assert forall|i: int, j: int| 0 <= i < ns.len() && 0 <= j < ns.len() && i != j implies ns[i] != ns[j] by {
        if i < j {
            lemma_lex_irreflexive(ns[i]);
        } else {
            lemma_lex_irreflexive(ns[j]);
        }
    }
    lemma_name_totals_keyed(es, ns);
    lemma_keyed_partition(es, |e: Entry| entry_name(e), ns);
}

/// The day totals add up to the grand total: every record belongs to exactly one day,
/// the day it started.
pub proof fn law_day_totals_add_up(es: Seq<Entry>)
    ensures
        day_totals(es, day_list(es)) == span_total(es),
{
    let ds = day_list(es);
    law_days_in_order(es);
    assert forall|i: int, j: int| 0 <= i < ds.len() && 0 <= j < ds.len() && i != j implies ds[i] != ds[j] by {
        if i < j {
            assert(ds[i].before(ds[j]));
        } else {
            assert(ds[j].before(ds[i]));
        }
    }
    lemma_day_totals_keyed(es, ds);
    lemma_keyed_partition(es, |e: Entry| e.started_at.date, ds);
}

} // verus!
