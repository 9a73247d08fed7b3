//! What is written can be read back, and leads to the documents that it was written of.

use crate::agent_assignment::AgentId;
use crate::causal_graph;
use crate::chunks;
use crate::chunks::{Chunk, ChunkRec};
use crate::convergence;
use crate::decoding;
use crate::decoding::ParseError;
use crate::encoding;
use crate::encoding::EncodeOptions;
use crate::events;
use crate::events::EventAbs;
use crate::extension;
use crate::graph;
use crate::history;
use crate::history::Hist;
use crate::names;
use crate::oplog::ListOpLog;
use crate::rebuild;
use crate::wire::Wire;
use vstd::prelude::*;
use vstd::utf8::*;

verus! {

/// The numbers below `n` that are chosen, in order.
pub open spec fn chosen_list(n: int, chosen: spec_fn(int) -> bool) -> Seq<int>
    decreases n,
{
    if n <= 0 {
        Seq::empty()
    } else {
        let before = chosen_list(n - 1, chosen);
        if chosen(n - 1) {
            before.push(n - 1)
        } else {
            before
        }
    }
}

proof fn lemma_chosen_list(h: Hist, n: int, chosen: spec_fn(int) -> bool)
    requires
        0 <= n,
    ensures
        events::told_of(h, chosen_list(n, chosen)) == events::events_chosen(h, n, chosen),
        forall|i: int|
            0 <= i < chosen_list(n, chosen).len() ==> 0 <= (#[trigger] chosen_list(n, chosen)[i])
                < n && chosen(chosen_list(n, chosen)[i]),
        forall|x: int|
            0 <= x < n && #[trigger] chosen(x) ==> chosen_list(n, chosen).contains(x),
    decreases n,
{
    let list = chosen_list(n, chosen);
    if n > 0 {
        let before = chosen_list(n - 1, chosen);
        lemma_chosen_list(h, n - 1, chosen);
        if chosen(n - 1) {
            assert(events::told_of(h, list) =~= events::told_of(h, before).push(
                events::event_of(h, n - 1),
            ));
        }
        assert forall|i: int| 0 <= i < list.len() implies 0 <= (#[trigger] list[i]) < n && chosen(
            list[i],
        ) by {
            if i < before.len() {
                assert(list[i] == before[i]);
            }
        }
        assert forall|x: int| 0 <= x < n && #[trigger] chosen(x) implies list.contains(x) by {
            if x == n - 1 {
                assert(list[before.len() as int] == x);
            } else {
                let i = before.index_of(x);
                assert(list[i] == x);
            }
        }
    } else {
        assert(events::told_of(h, list) =~= events::events_chosen(h, n, chosen));
    }
}

/// Before a chosen number come all those chosen that are below it.
proof fn lemma_chosen_before(n: int, chosen: spec_fn(int) -> bool, i: int, x: int)
    requires
        0 <= i < chosen_list(n, chosen).len(),
        0 <= x < chosen_list(n, chosen)[i],
        chosen(x),
    ensures
        chosen_list(n, chosen).take(i).contains(x),
    decreases n,
{
    let list = chosen_list(n, chosen);
    let before = chosen_list(n - 1, chosen);
    if i < before.len() {
        lemma_chosen_before(n - 1, chosen, i, x);
        assert(list.take(i) =~= before.take(i));
    } else {
        assert(list.take(i) =~= before);
        lemma_chosen_has_number(n - 1, chosen, x);
    }
}

proof fn lemma_chosen_has_number(n: int, chosen: spec_fn(int) -> bool, x: int)
    requires
        0 <= x < n,
        chosen(x),
    ensures
        chosen_list(n, chosen).contains(x),
    decreases n,
{
    let list = chosen_list(n, chosen);
    let before = chosen_list(n - 1, chosen);
    if x == n - 1 {
        assert(list[before.len() as int] == x);
    } else {
        lemma_chosen_has_number(n - 1, chosen, x);
        let i = before.index_of(x);
        assert(list[i] == x);
    }
}

/// Told in the order of a history, events come behind those that they follow.
proof fn lemma_in_order(h: Hist, f: Seq<int>, chosen: spec_fn(int) -> bool)
    requires
        h.valid(),
        forall|v: int, j: int|
            #![trigger h.parents[v][j]]
            0 <= v < h.len() && 0 <= j < h.parents[v].len() && chosen(v) ==> chosen(
                h.parents[v][j] as int,
            ) || f.contains(h.parents[v][j] as int),
    ensures
        events::in_causal_order(h, f, chosen_list(h.len() as int, chosen)),
{
    let n = h.len() as int;
    let ws = chosen_list(n, chosen);
    lemma_chosen_list(h, n, chosen);
    assert forall|i: int, j: int|
        #![trigger h.parents[ws[i]][j]]
        0 <= i < ws.len() && 0 <= j < h.parents[ws[i]].len() implies f.contains(
        h.parents[ws[i]][j] as int,
    ) || ws.take(i).contains(h.parents[ws[i]][j] as int) by {
        let w = ws[i];
        let p = h.parents[w][j] as int;
        assert(h.parents[w][j] < w);
        if !f.contains(p) {
            assert(chosen(p));
            lemma_chosen_before(n, chosen, i, p);
        }
    }
}

/// What a version had seen, in order, with nothing known.
proof fn lemma_cone_order(log: ListOpLog, version: Seq<usize>)
    requires
        log.inv(),
    ensures
        events::in_causal_order(
            log.hist(),
            Seq::empty(),
            chosen_list(
                log.size(),
                |v: int| graph::in_cone(log.cg.parents(), version, v),
            ),
        ),
{
    let h = log.hist();
    let g = log.cg.parents();
    let chosen = |v: int| graph::in_cone(g, version, v);
    log.lemma_hist();
    assert forall|v: int, j: int|
        #![trigger h.parents[v][j]]
        0 <= v < h.len() && 0 <= j < h.parents[v].len() && chosen(v) implies chosen(
        h.parents[v][j] as int,
    ) || Seq::<int>::empty().contains(h.parents[v][j] as int) by {
        let p = h.parents[v][j] as int;
        assert(h.parents[v][j] < v);
        assert(graph::reaches(g, p, p));
        assert(graph::reaches(g, v, p));
        graph::lemma_cone_closed(g, version, v, p);
    }
    lemma_in_order(h, Seq::empty(), chosen);
}

proof fn lemma_nothing_embeds(b: Hist)
    ensures
        events::nothing().valid(),
        convergence::embeds(events::nothing(), b, Seq::empty()),
{
}

proof fn lemma_range_of_chosen(n: int, chosen: spec_fn(int) -> bool, h: Hist)
    requires
        0 <= n,
    ensures
        events::range_of(chosen_list(n, chosen)) == Set::new(|x: int| 0 <= x < n && chosen(x)),
{
    let ws = chosen_list(n, chosen);
    lemma_chosen_list(h, n, chosen);
    assert forall|x: int| #[trigger] events::range_of(ws).contains(x) == (0 <= x < n && chosen(
        x,
    )) by {
        if ws.contains(x) {
            let i = ws.index_of(x);
            assert(ws[i] == x);
        }
    }
    assert(events::range_of(ws) =~= Set::new(|x: int| 0 <= x < n && chosen(x)));
}

/// Whether some event of a set follows an event directly.
pub open spec fn followed_in(h: Hist, s: Set<int>, x: int) -> bool {
    exists|w: int| s.contains(w) && (#[trigger] h.parents[w]).contains(x as usize)
}

/// Whether an author's event is one of the newest of a set of events.
pub open spec fn newest_in(h: Hist, s: Set<int>, id: (Seq<char>, int)) -> bool {
    exists|v: int|
        s.contains(v) && 0 <= v < h.len() && #[trigger] h.ids[v] == id && !followed_in(h, s, v)
}

/// The newest events of a history that is part of another are the newest of that part.
#[verifier::rlimit(50)]
proof fn lemma_newest(a: Hist, b: Hist, f: Seq<int>, id: (Seq<char>, int))
    requires
        a.valid(),
        b.valid(),
        a.len() <= usize::MAX,
        b.len() <= usize::MAX,
        convergence::embeds(a, b, f),
    ensures
        newest_in(a, Set::new(|v: int| 0 <= v < a.len()), id) == newest_in(
            b,
            events::range_of(f),
            id,
        ),
{
    let all = Set::new(|v: int| 0 <= v < a.len());
    let s = events::range_of(f);
    assert forall|v: int| 0 <= v < a.len() implies #[trigger] followed_in(a, all, v)
        == followed_in(b, s, f[v]) by {
        assert(0 <= f[v] < b.len());
        if followed_in(a, all, v) {
            let w = choose|w: int| all.contains(w) && (#[trigger] a.parents[w]).contains(v as usize);
            let i = a.parents[w].index_of(v as usize);
            assert(a.parents[w][i] == v);
            assert(b.parents[f[w]].contains(f[v] as usize));
            assert(f.contains(f[w]));
            assert(s.contains(f[w]));
        }
        if followed_in(b, s, f[v]) {
            let y = choose|y: int| s.contains(y) && (#[trigger] b.parents[y]).contains(
                f[v] as usize,
            );
            let w = f.index_of(y);
            assert(f[w] == y);
            let j = b.parents[y].index_of(f[v] as usize);
            assert(b.parents[f[w]][j] == f[v]);
            assert(convergence::follows(a, f, w, b.parents[f[w]][j]));
            let i = choose|i: int|
                0 <= i < a.parents[w].len() && f[#[trigger] a.parents[w][i] as int] == f[v];
            let p = a.parents[w][i] as int;
            assert(a.parents[w][i] < w);
            assert(b.ids[f[p]] == a.ids[p]);
            assert(b.ids[f[v]] == a.ids[v]);
            events::lemma_place(a, p);
            events::lemma_place(a, v);
            assert(p == v);
            assert(a.parents[w].contains(v as usize));
            assert(all.contains(w));
        }
    }
    if newest_in(a, all, id) {
        let v = choose|v: int|
            all.contains(v) && 0 <= v < a.len() && #[trigger] a.ids[v] == id && !followed_in(
                a,
                all,
                v,
            );
        assert(b.ids[f[v]] == id);
        assert(f.contains(f[v]));
        assert(!followed_in(b, s, f[v]));
    }
    if newest_in(b, s, id) {
        let y = choose|y: int|
            s.contains(y) && 0 <= y < b.len() && #[trigger] b.ids[y] == id && !followed_in(
                b,
                s,
                y,
            );
        let v = f.index_of(y);
        assert(f[v] == y);
        assert(a.ids[v] == id);
        assert(!followed_in(a, all, v));
    }
}

/// What is written of all that there is, is what is written of all that the newest events
/// had seen.
pub proof fn law_encode_tip(log: ListOpLog, opts: EncodeOptions)
    requires
        log.inv(),
    ensures
        encoding::encoded(
            events::events_chosen(
                log.hist(),
                log.size(),
                |v: int| graph::in_cone(log.cg.parents(), log.cg.version@, v),
            ),
            opts,
        ) == encoding::encoded(events::events_between(log.hist(), 0, log.size()), opts),
{
    let h = log.hist();
    let tip = log.cg.version@;
    let chosen = |v: int| graph::in_cone(log.cg.parents(), tip, v);
    log.lemma_hist();
    assert forall|v: int| 0 <= v < log.size() implies #[trigger] chosen(v) by {
        causal_graph::lemma_tips_cone(h.parents, tip, v);
    }
    rebuild::lemma_span(h, 0, log.size(), chosen);
    assert(events::events_chosen(h, 0, chosen) =~= Seq::<EventAbs>::empty());
    assert(events::events_chosen(h, log.size(), chosen) =~= events::events_between(
        h,
        0,
        log.size(),
    ));
}

/// What is written of a version that the newest events once were is what was written of the
/// whole log back then.
pub proof fn law_encode_then(was: ListOpLog, now: ListOpLog, opts: EncodeOptions)
    requires
        was.inv(),
        now.inv(),
        extension::prefix(was.hist(), now.hist()),
    ensures
        encoding::encoded(
            events::events_chosen(
                now.hist(),
                now.size(),
                |v: int| graph::in_cone(now.cg.parents(), was.cg.version@, v),
            ),
            opts,
        ) == encoding::encoded(events::events_between(was.hist(), 0, was.size()), opts),
{
    let h = now.hist();
    let old_h = was.hist();
    let tip = was.cg.version@;
    let n = was.size();
    let chosen = |v: int| graph::in_cone(now.cg.parents(), tip, v);
    was.lemma_hist();
    now.lemma_hist();
    extension::lemma_prefix_version(old_h, h, tip);
    assert forall|v: int| 0 <= v < n implies #[trigger] chosen(v) by {
        causal_graph::lemma_tips_cone(old_h.parents, tip, v);
        assert(old_h.version(tip).contains(v));
        assert(h.version(tip).contains(v));
    }
    assert forall|v: int| n <= v < now.size() implies !#[trigger] chosen(v) by {
        if chosen(v) {
            assert(h.version(tip).contains(v));
        }
    }
    rebuild::lemma_span(h, 0, n, chosen);
    rebuild::lemma_gap(h, n, now.size(), chosen);
    assert(events::events_chosen(h, 0, chosen) =~= Seq::<EventAbs>::empty());
    assert forall|v: int| 0 <= v < n implies #[trigger] events::event_of(h, v)
        == events::event_of(old_h, v) by {
        assert(h.parents[v] == old_h.parents[v]);
        assert forall|i: int| 0 <= i < h.parents[v].len() implies h.ids[(
        #[trigger] h.parents[v][i]) as int] == old_h.ids[h.parents[v][i] as int] by {
            assert(h.parents[v][i] < v);
            assert(h.parents[h.parents[v][i] as int] == old_h.parents[h.parents[v][i] as int]);
        }
        assert(events::ids_of(h, h.parents[v]) =~= events::ids_of(old_h, old_h.parents[v]));
    }
    assert(events::events_between(h, 0, n) =~= events::events_between(old_h, 0, n));
    assert(events::events_chosen(h, now.size(), chosen) =~= events::events_between(old_h, 0, n));
}

/// What is written of events of a log tells of these events.
pub proof fn law_written(log: ListOpLog, chosen: spec_fn(int) -> bool, opts: EncodeOptions)
    requires
        log.inv(),
    ensures
        ({
            let evs = events::events_chosen(log.hist(), log.size(), chosen);
            let d = encoding::data_of(evs, opts);
            &&& encoding::data_fits(d)
            &&& encoding::data_events(d) == evs
        }),
{
    log.lemma_hist();
    encoding::lemma_events_fit(log, log.size(), chosen);
    encoding::law_data(events::events_chosen(log.hist(), log.size(), chosen), opts);
}

// ---- that all can be written ----

proof fn lemma_name_len(name: Seq<char>)
    ensures
        name.len() <= encode_utf8(name).len(),
    decreases name.len(),
{
    if name.len() > 0 {
        lemma_name_len(name.drop_first());
    }
}

/// Whether a name is that of an agent of a log.
spec fn is_agent(log: ListOpLog, name: Seq<char>) -> bool {
    log.cg.agent_assignment.agent_ids@.contains_key(name)
}

spec fn are_agents(log: ListOpLog, names: Seq<Seq<char>>) -> bool {
    forall|i: int| 0 <= i < names.len() ==> is_agent(log, #[trigger] names[i])
}

spec fn ids_by_agents(log: ListOpLog, ids: Seq<chunks::EventId>) -> bool {
    forall|i: int| 0 <= i < ids.len() ==> is_agent(log, (#[trigger] ids[i]).0)
}

spec fn chunk_by_agents(log: ListOpLog, c: Chunk) -> bool {
    is_agent(log, c.name) && ids_by_agents(log, c.parents)
}

spec fn chunks_by_agents(log: ListOpLog, list: Seq<Chunk>) -> bool {
    forall|i: int| 0 <= i < list.len() ==> chunk_by_agents(log, #[trigger] list[i])
}

proof fn lemma_event_by_agents(log: ListOpLog, v: int)
    requires
        log.inv(),
        0 <= v < log.size(),
    ensures
        chunk_by_agents(log, chunks::chunk_of(events::event_of(log.hist(), v))),
{
    let h = log.hist();
    let aa = log.cg.agent_assignment;
    let e = events::event_of(h, v);
    log.lemma_hist();
    assert(aa.id_of(v).0 < aa.agents());
    assert(aa.agent_ids@.contains_key(aa.name_of(aa.id_of(v).0 as int)));
    assert forall|i: int| 0 <= i < e.parents.len() implies is_agent(
        log,
        (#[trigger] e.parents[i]).0,
    ) by {
        let p = h.parents[v][i] as int;
        assert(h.parents[v][i] < v);
        assert(aa.id_of(p).0 < aa.agents());
        assert(aa.agent_ids@.contains_key(aa.name_of(aa.id_of(p).0 as int)));
    }
}

proof fn lemma_chunks_by_agents(log: ListOpLog, n: int, chosen: spec_fn(int) -> bool)
    requires
        log.inv(),
        0 <= n <= log.size(),
    ensures
        chunks_by_agents(log, chunks::chunks_of(events::events_chosen(log.hist(), n, chosen))),
    decreases n,
{
    if n > 0 {
        lemma_chunks_by_agents(log, n - 1, chosen);
        if chosen(n - 1) {
            let before = events::events_chosen(log.hist(), n - 1, chosen);
            let evs = events::events_chosen(log.hist(), n, chosen);
            let a = chunks::chunks_of(before);
            let b = chunks::chunks_of(evs);
            assert(evs.drop_last() =~= before);
            lemma_event_by_agents(log, n - 1);
            assert forall|i: int| 0 <= i < b.len() implies chunk_by_agents(
                log,
                #[trigger] b[i],
            ) by {
                if i < a.len() {
                    assert(chunk_by_agents(log, a[i]));
                }
            }
        }
    }
}

proof fn lemma_with_name_by_agents(log: ListOpLog, names: Seq<Seq<char>>, name: Seq<char>)
    requires
        are_agents(log, names),
        names.no_duplicates(),
        is_agent(log, name),
    ensures
        are_agents(log, names::with_name(names, name)),
        names::with_name(names, name).no_duplicates(),
{
    let out = names::with_name(names, name);
    if !names.contains(name) {
        assert forall|i: int, j: int|
            0 <= i < out.len() && 0 <= j < out.len() && i != j implies out[i] != out[j] by {
            if i < names.len() && j < names.len() {
                assert(names[i] != names[j]);
            } else if i < names.len() {
                assert(names.contains(names[i]));
            } else {
                assert(names.contains(names[j]));
            }
        }
        assert forall|i: int| 0 <= i < out.len() implies is_agent(log, #[trigger] out[i]) by {
            if i < names.len() {
                assert(out[i] == names[i]);
            }
        }
    }
}

proof fn lemma_with_ids_by_agents(
    log: ListOpLog,
    names: Seq<Seq<char>>,
    ids: Seq<chunks::EventId>,
)
    requires
        are_agents(log, names),
        names.no_duplicates(),
        ids_by_agents(log, ids),
    ensures
        are_agents(log, chunks::with_ids(names, ids)),
        chunks::with_ids(names, ids).no_duplicates(),
    decreases ids.len(),
{
    if ids.len() > 0 {
        let less = ids.drop_last();
        assert forall|i: int| 0 <= i < less.len() implies is_agent(
            log,
            (#[trigger] less[i]).0,
        ) by {
            assert(less[i] == ids[i]);
        }
        lemma_with_ids_by_agents(log, names, less);
        assert(is_agent(log, ids[ids.len() - 1].0));
        lemma_with_name_by_agents(log, chunks::with_ids(names, less), ids.last().0);
    }
}

proof fn lemma_names_by_agents(log: ListOpLog, list: Seq<Chunk>)
    requires
        chunks_by_agents(log, list),
    ensures
        are_agents(log, chunks::names_of(list)),
        chunks::names_of(list).no_duplicates(),
    decreases list.len(),
{
    if list.len() > 0 {
        let less = list.drop_last();
        assert forall|i: int| 0 <= i < less.len() implies chunk_by_agents(
            log,
            #[trigger] less[i],
        ) by {
            assert(less[i] == list[i]);
        }
        lemma_names_by_agents(log, less);
        let c = list[list.len() - 1];
        assert(chunk_by_agents(log, c));
        lemma_with_name_by_agents(log, chunks::names_of(less), c.name);
        lemma_with_ids_by_agents(
            log,
            names::with_name(chunks::names_of(less), c.name),
            c.parents,
        );
    }
}

/// Names of agents of a log stand among those of its agents.
proof fn lemma_names_known(log: ListOpLog, names: Seq<Seq<char>>)
    requires
        log.inv(),
        are_agents(log, names),
    ensures
        forall|i: int| 0 <= i < names.len() ==> log.names().contains(#[trigger] names[i]),
{
    let aa = log.cg.agent_assignment;
    assert forall|i: int| 0 <= i < names.len() implies log.names().contains(
        #[trigger] names[i],
    ) by {
        assert(is_agent(log, names[i]));
        assert(log.names()[aa.agent_ids@[names[i]] as int] == names[i]);
    }
}

/// Where all names of a log's agents can be counted behind others, so can some of them.
proof fn lemma_names_fit(log: ListOpLog, known: Seq<Seq<char>>, names: Seq<Seq<char>>)
    requires
        log.inv(),
        known.no_duplicates(),
        forall|i: int| 0 <= i < names.len() ==> log.names().contains(#[trigger] names[i]),
    ensures
        names::with_names(known, names).len() <= names::with_names(known, log.names()).len(),
{
    let out = names::with_names(known, names);
    let all = names::with_names(known, log.names());
    names::lemma_with_names(known, names, Seq::empty());
    assert forall|i: int| 0 <= i < out.len() implies all.contains(#[trigger] out[i]) by {
        names::lemma_with_names(known, names, out[i]);
        names::lemma_with_names(known, log.names(), out[i]);
        if names.contains(out[i]) {
            assert(log.names().contains(names[names.index_of(out[i])]));
        }
    }
    names::lemma_few(out, all);
}

/// A peer all of whose agents are a log's can count all of these.
proof fn lemma_own_names_fit(log: ListOpLog, known: Seq<Seq<char>>)
    requires
        log.inv(),
        known.no_duplicates(),
        forall|i: int| 0 <= i < known.len() ==> log.names().contains(#[trigger] known[i]),
    ensures
        names::with_names(known, log.names()).len() <= AgentId::MAX,
{
    let all = names::with_names(known, log.names());
    names::lemma_with_names(known, log.names(), Seq::empty());
    assert forall|i: int| 0 <= i < all.len() implies log.names().contains(#[trigger] all[i]) by {
        names::lemma_with_names(known, log.names(), all[i]);
        if known.contains(all[i]) {
            assert(log.names().contains(known[known.index_of(all[i])]));
        }
    }
    names::lemma_few(all, log.names());
}

/// Events of a log can be written, and what is written of them is found in the bytes.
pub proof fn law_written_file(log: ListOpLog, chosen: spec_fn(int) -> bool, opts: EncodeOptions)
    requires
        log.inv(),
    ensures
        ({
            let evs = events::events_chosen(log.hist(), log.size(), chosen);
            let d = encoding::data_of(evs, opts);
            &&& decoding::is_file(encoding::encoded(evs, opts), d)
            &&& decoding::file_of(encoding::encoded(evs, opts)) == Some(d)
            &&& decoding::events_told(encoding::encoded(evs, opts)) == evs
            &&& forall|i: int| 0 <= i < d.0.1.len() ==> log.names().contains(#[trigger] d.0.1[i])
        }),
{
    let evs = events::events_chosen(log.hist(), log.size(), chosen);
    let d = encoding::data_of(evs, opts);
    let list = chunks::chunks_of(evs);
    let names = chunks::names_of(list);
    log.lemma_hist();
    law_written(log, chosen, opts);
    encoding::lemma_events_fit(log, log.size(), chosen);
    chunks::law_chunks(evs);
    chunks::lemma_names(list);
    lemma_chunks_by_agents(log, log.size(), chosen);
    lemma_names_by_agents(log, list);
    lemma_names_known(log, names);
    names::lemma_few(names, log.names());
    assert(<Vec<Vec<char>> as Wire>::fine(names)) by {
        assert forall|i: int| 0 <= i < names.len() implies <Vec<char> as Wire>::fine(
            #[trigger] names[i],
        ) by {
            assert(crate::agent_assignment::name_fits(names[i]));
            lemma_name_len(names[i]);
        }
    }
    assert(<Vec<ChunkRec> as Wire>::fine(d.1)) by {
        assert forall|i: int| 0 <= i < d.1.len() implies ChunkRec::fine(#[trigger] d.1[i]) by {
            let r = d.1[i];
            assert(chunks::rec_fits(names, r));
            assert(chunks::chunk_fits(list[i]));
            assert(r == chunks::rec_of(names, list[i]));
            assert forall|j: int| 0 <= j < r.parents.len() implies <(usize, usize) as Wire>::fine(
                #[trigger] r.parents[j],
            ) by {}
        }
    }
    decoding::law_file(encoding::encoded(evs, opts), d);
}

proof fn lemma_chosen_count(h: Hist, n: int, p: spec_fn(int) -> bool, q: spec_fn(int) -> bool)
    requires
        0 <= n,
        forall|v: int| 0 <= v < n ==> #[trigger] q(v) == !p(v),
    ensures
        events::events_chosen(h, n, p).len() + events::events_chosen(h, n, q).len() == n,
    decreases n,
{
    if n > 0 {
        lemma_chosen_count(h, n - 1, p, q);
        assert(q(n - 1) == !p(n - 1));
    }
}

/// The bytes of what a version had seen can be taken up by a peer that knows nothing, which
/// then shows the document at that version, and has its newest events.
#[verifier::rlimit(50)]
pub proof fn law_encode_at(
    log: ListOpLog,
    version: Seq<usize>,
    opts: EncodeOptions,
    id: (Seq<char>, int),
)
    requires
        log.inv(),
        history::playable(log.hist()),
        graph::known(log.cg.parents(), version),
    ensures
        ({
            let h = log.hist();
            let evs = events::events_chosen(
                h,
                log.size(),
                |v: int| graph::in_cone(log.cg.parents(), version, v),
            );
            let c = events::received_all(events::nothing(), evs);
            let all = Set::new(|v: int| 0 <= v < c.len());
            &&& decoding::decoded(events::nothing(), Seq::empty(), encoding::encoded(evs, opts)) == Ok::<
                Hist,
                ParseError,
            >(c)
            &&& history::playable(c)
            &&& history::document(c, all) == history::document(h, h.version(version))
            &&& newest_in(c, all, id) == newest_in(h, h.version(version), id)
            &&& by_agents(log, decoding::agents_told(encoding::encoded(evs, opts)))
        }),
{
    let h = log.hist();
    let g = log.cg.parents();
    let n = log.size();
    let chosen = |v: int| graph::in_cone(g, version, v);
    let ws = chosen_list(n, chosen);
    let none = Seq::<int>::empty();
    log.lemma_hist();
    lemma_nothing_embeds(h);
    lemma_cone_order(log, version);
    lemma_chosen_list(h, n, chosen);
    events::law_received(events::nothing(), h, none, ws);
    events::law_received_document(events::nothing(), h, none, ws);
    lemma_range_of_chosen(n, chosen, h);
    assert(events::range_of(none).union(events::range_of(ws)) =~= h.version(version)) by {
        assert forall|x: int| #[trigger] h.version(version).contains(x) implies 0 <= x < n by {
            graph::lemma_cone_order(g, version, x);
        }
        assert forall|x: int| !#[trigger] events::range_of(none).contains(x) by {}
    }
    let c = events::received_all(events::nothing(), events::told_of(h, ws));
    lemma_newest(c, h, events::sent_on(events::nothing(), h, none, ws), id);
    law_written_file(log, chosen, opts);
    encoding::lemma_events_fit(log, n, chosen);
    lemma_told_by_agents(log, chosen, opts);
    lemma_chosen_count(h, n, chosen, |v: int| !chosen(v));
    decoding::lemma_counted(events::nothing(), events::events_chosen(h, n, chosen));
}

/// Whether names are different ones of a log's agents.
pub open spec fn by_agents(log: ListOpLog, names: Seq<Seq<char>>) -> bool {
    &&& names.no_duplicates()
    &&& forall|i: int| 0 <= i < names.len() ==> log.names().contains(#[trigger] names[i])
}

/// What is written of events of a log names agents of it, and these can be counted.
proof fn lemma_told_by_agents(log: ListOpLog, chosen: spec_fn(int) -> bool, opts: EncodeOptions)
    requires
        log.inv(),
    ensures
        ({
            let bytes = encoding::encoded(
                events::events_chosen(log.hist(), log.size(), chosen),
                opts,
            );
            &&& by_agents(log, decoding::agents_told(bytes))
            &&& decoding::agents_told(bytes).len() <= AgentId::MAX
        }),
{
    let bytes = encoding::encoded(events::events_chosen(log.hist(), log.size(), chosen), opts);
    let none = Seq::<Seq<char>>::empty();
    let told = decoding::names_told(bytes);
    let out = decoding::agents_told(bytes);
    law_written_file(log, chosen, opts);
    names::lemma_with_names(none, told, Seq::empty());
    assert forall|i: int| 0 <= i < out.len() implies log.names().contains(#[trigger] out[i]) by {
        names::lemma_with_names(none, told, out[i]);
        assert(log.names().contains(told[told.index_of(out[i])]));
    }
    names::lemma_few(out, log.names());
}

/// What a version had seen and what it had not, taken up one after the other, make a history
/// of the same document and the same newest events.
#[verifier::rlimit(40)]
pub proof fn lemma_exchanged(log: ListOpLog, version: Seq<usize>, id: (Seq<char>, int))
    requires
        log.inv(),
        history::playable(log.hist()),
        graph::known(log.cg.parents(), version),
    ensures
        ({
            let h = log.hist();
            let n = log.size();
            let g = log.cg.parents();
            let seen = events::events_chosen(h, n, |v: int| graph::in_cone(g, version, v));
            let rest = events::events_chosen(h, n, |v: int| !graph::in_cone(g, version, v));
            let c = events::received_all(events::nothing(), seen);
            let d = events::received_all(c, rest);
            let all = Set::new(|v: int| 0 <= v < d.len());
            &&& events::receivable(events::nothing(), seen)
            &&& events::receivable(c, rest)
            &&& c.valid()
            &&& seen.len() <= n
            &&& c.len() + rest.len() <= n
            &&& history::playable(d)
            &&& history::document(d, all) == history::document(h, Set::new(|v: int| 0 <= v < n))
            &&& newest_in(d, all, id) == newest_in(h, Set::new(|v: int| 0 <= v < n), id)
        }),
{
    let h = log.hist();
    let g = log.cg.parents();
    let n = log.size();
    let chosen = |v: int| graph::in_cone(g, version, v);
    let other = |v: int| !graph::in_cone(g, version, v);
    let ws = chosen_list(n, chosen);
    let xs = chosen_list(n, other);
    let none = Seq::<int>::empty();
    let start = events::nothing();
    log.lemma_hist();
    lemma_nothing_embeds(h);
    lemma_cone_order(log, version);
    lemma_chosen_list(h, n, chosen);
    lemma_chosen_list(h, n, other);
    lemma_range_of_chosen(n, chosen, h);
    lemma_range_of_chosen(n, other, h);
    events::law_received(start, h, none, ws);
    let c = events::received_all(start, events::told_of(h, ws));
    let f = events::sent_on(start, h, none, ws);
    assert forall|v: int, j: int|
        #![trigger h.parents[v][j]]
        0 <= v < h.len() && 0 <= j < h.parents[v].len() && other(v) implies other(
        h.parents[v][j] as int,
    ) || f.contains(h.parents[v][j] as int) by {
        let p = h.parents[v][j] as int;
        assert(h.parents[v][j] < v);
        if !other(p) {
            assert(chosen(p));
            assert(events::range_of(ws).contains(p));
            assert(events::range_of(none).union(events::range_of(ws)).contains(p));
            assert(events::range_of(f).contains(p));
        }
    }
    lemma_in_order(h, f, other);
    events::law_received(c, h, f, xs);
    events::law_received_document(c, h, f, xs);
    let both = events::range_of(f).union(events::range_of(xs));
    let all = Set::new(|v: int| 0 <= v < n);
    assert forall|x: int| #[trigger] both.contains(x) == all.contains(x) by {
        assert(events::range_of(f).contains(x) == events::range_of(none).union(
            events::range_of(ws),
        ).contains(x));
        assert(events::range_of(ws).contains(x) == (0 <= x < n && chosen(x)));
        assert(events::range_of(xs).contains(x) == (0 <= x < n && other(x)));
        assert(!events::range_of(none).contains(x));
    }
    assert(both =~= all);
    let d = events::received_all(c, events::told_of(h, xs));
    lemma_newest(d, h, events::sent_on(c, h, f, xs), id);
    lemma_chosen_count(h, n, chosen, other);
    events::lemma_received_len(start, events::told_of(h, ws));
    events::lemma_received_all(start, events::told_of(h, ws));
}

/// What a version had seen and what it had not make up all of it: a peer that took up
/// the one, has agents of whatever names by then besides which it can count those of the log,
/// and takes up the bytes of the other, shows the document with all events, and has the
/// newest of them.
#[verifier::rlimit(50)]
pub proof fn law_encode_from(
    log: ListOpLog,
    version: Seq<usize>,
    opts: EncodeOptions,
    agents: Seq<Seq<char>>,
    id: (Seq<char>, int),
)
    requires
        agents.no_duplicates(),
        names::with_names(agents, log.names()).len() <= AgentId::MAX,
        log.inv(),
        history::playable(log.hist()),
        graph::known(log.cg.parents(), version),
    ensures
        ({
            let h = log.hist();
            let n = log.size();
            let g = log.cg.parents();
            let seen = events::events_chosen(h, n, |v: int| graph::in_cone(g, version, v));
            let rest = events::events_chosen(h, n, |v: int| !graph::in_cone(g, version, v));
            let c = events::received_all(events::nothing(), seen);
            let d = events::received_all(c, rest);
            let all = Set::new(|v: int| 0 <= v < d.len());
            &&& decoding::decoded(c, agents, encoding::encoded(rest, opts)) == Ok::<
                Hist,
                ParseError,
            >(d)
            &&& history::playable(d)
            &&& history::document(d, all) == history::document(h, Set::new(|v: int| 0 <= v < n))
            &&& newest_in(d, all, id) == newest_in(h, Set::new(|v: int| 0 <= v < n), id)
        }),
{
    let g = log.cg.parents();
    log.lemma_hist();
    lemma_exchanged(log, version, id);
    let other = |v: int| !graph::in_cone(g, version, v);
    law_written_file(log, other, opts);
    let rest = events::events_chosen(log.hist(), log.size(), other);
    let seen = events::events_chosen(
        log.hist(),
        log.size(),
        |v: int| graph::in_cone(g, version, v),
    );
    decoding::lemma_counted(events::received_all(events::nothing(), seen), rest);
    lemma_names_fit(log, agents, encoding::data_of(rest, opts).0.1);
}

/// A peer that knows nothing, and takes up the bytes of what a version had seen and then those
/// of what it had not, shows the document with all events, and has the newest of them.
pub proof fn law_partition(
    log: ListOpLog,
    version: Seq<usize>,
    first: EncodeOptions,
    second: EncodeOptions,
    id: (Seq<char>, int),
)
    requires
        log.inv(),
        history::playable(log.hist()),
        graph::known(log.cg.parents(), version),
    ensures
        ({
            let h = log.hist();
            let n = log.size();
            let g = log.cg.parents();
            let seen = events::events_chosen(h, n, |v: int| graph::in_cone(g, version, v));
            let rest = events::events_chosen(h, n, |v: int| !graph::in_cone(g, version, v));
            let one = encoding::encoded(seen, first);
            let two = encoding::encoded(rest, second);
            let c = decoding::decoded(events::nothing(), Seq::empty(), one);
            let d = decoding::decoded(c->Ok_0, decoding::agents_told(one), two);
            let all = Set::new(|v: int| 0 <= v < d->Ok_0.len());
            &&& c is Ok
            &&& d is Ok
            &&& history::playable(d->Ok_0)
            &&& history::document(d->Ok_0, all) == history::document(
                h,
                Set::new(|v: int| 0 <= v < n),
            )
            &&& newest_in(d->Ok_0, all, id) == newest_in(h, Set::new(|v: int| 0 <= v < n), id)
        }),
{
    let g = log.cg.parents();
    let seen = events::events_chosen(
        log.hist(),
        log.size(),
        |v: int| graph::in_cone(g, version, v),
    );
    let agents = decoding::agents_told(encoding::encoded(seen, first));
    law_encode_at(log, version, first, id);
    lemma_own_names_fit(log, agents);
    law_encode_from(log, version, second, agents, id);
}

/// Taking up bytes again changes nothing, as long as the agents that they name can be counted.
pub proof fn law_decoded_again(
    h: Hist,
    agents: Seq<Seq<char>>,
    bytes: Seq<u8>,
    more_agents: Seq<Seq<char>>,
)
    requires
        h.valid(),
        decoding::decoded(h, agents, bytes) is Ok,
        names::with_names(more_agents, decoding::names_told(bytes)).len() <= AgentId::MAX,
    ensures
        decoding::decoded(decoding::decoded(h, agents, bytes)->Ok_0, more_agents, bytes)
            == decoding::decoded(h, agents, bytes),
{
    let d = decoding::file_of(bytes)->0;
    let evs = encoding::data_events(d);
    let after = events::received_all(h, evs);
    assert(evs.take(evs.len() as int) =~= evs);
    events::law_received_again(h, evs);
    assert(!decoding::overflows(after, evs)) by {
        assert forall|k: int| 0 <= k <= evs.len() implies events::received_all(
            after,
            #[trigger] evs.take(k),
        ).len() <= usize::MAX by {
            events::lemma_received_more(after, evs, k);
        }
    }
}

/// What is written of a log in which what each event follows stands in order is read back as
/// the same history.
#[verifier::rlimit(50)]
pub proof fn law_loaded(log: ListOpLog, opts: EncodeOptions)
    requires
        log.inv(),
        events::parents_in_order(log.hist()),
    ensures
        decoding::decoded(
            events::nothing(),
            Seq::empty(),
            encoding::encoded(events::events_between(log.hist(), 0, log.size()), opts),
        ) == Ok::<Hist, ParseError>(log.hist()),
{
    let h = log.hist();
    let n = log.size();
    let all = |v: int| true;
    log.lemma_hist();
    law_written_file(log, all, opts);
    lemma_told_by_agents(log, all, opts);
    rebuild::lemma_span(h, 0, n, all);
    assert(events::events_chosen(h, 0, all) =~= Seq::<EventAbs>::empty());
    assert(events::events_chosen(h, n, all) =~= events::events_between(h, 0, n));
    events::law_all_received(h);
    decoding::lemma_counted(events::nothing(), events::events_between(h, 0, n));
}

} // verus!
