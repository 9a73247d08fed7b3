use textlog::agent_assignment::LV;
use textlog::branch::ListBranch;
use textlog::encoding::{ENCODE_FULL, ENCODE_PATCH};
use textlog::frontier::Frontier;
use textlog::observed_history::{chains, Run};
use textlog::operation::{ListOpKind, TextOperation};
use textlog::oplog::ListOpLog;

fn text(s: &Option<textlog::smart_string::SmartString>) -> Option<String> {
    s.as_ref().map(|c| c.to_string())
}

// Two rle-merged inserts by one agent summarize into a single update;
// a concurrent delete by another agent is its own
#[test]
fn summarizes_a_run_and_breaks_at_a_fork() {
    let mut oplog = ListOpLog::new();
    let a = oplog.get_or_create_agent_id("a");
    let b = oplog.get_or_create_agent_id("b");
    oplog.add_insert_at(a, &[], 0, "hh");   // lv 0..2
    oplog.add_insert_at(a, &[1], 2, "ddd"); // lv 2..5, chains with hh
    oplog.add_delete_at(b, &[1], (0..1).into());     // lv 5..6, concurrent

    let updates = oplog.updates_since(&[]);
    assert_eq!(updates.len(), 2);

    assert_eq!(updates[0].agent.to_string(), "a");
    assert_eq!(updates[0].seq_end, 4);
    assert_eq!(updates[0].parents.as_ref(), &[] as &[LV]);
    // Inserts report the position span their content covers
    assert_eq!((updates[0].pos_start, updates[0].pos_end), (0, 5));
    assert_eq!(text(&updates[0].content).as_deref(), Some("hhddd"));

    assert_eq!(updates[1].agent.to_string(), "b");
    assert_eq!(updates[1].seq_end, 0);
    assert_eq!(updates[1].parents.as_ref(), &[1]);
    assert_eq!((updates[1].pos_start, updates[1].pos_end), (0, 1));
    assert_eq!(updates[1].content, None);
}

// Forward deletes (what a local delete creates) stay
// at event grain: one update per event, all at the same position
#[test]
fn forward_delete_emits_per_event() {
    let mut oplog = ListOpLog::new();
    let a = oplog.get_or_create_agent_id("a");
    oplog.add_insert_at(a, &[], 0, "abcd");  // lv 0..4
    oplog.add_delete_at(a, &[3], (1..4).into());      // lv 4..7, fwd delete

    let updates = oplog.updates_since(&[]);
    assert_eq!(updates.len(), 4);
    assert_eq!(text(&updates[0].content).as_deref(), Some("abcd"));

    for (k, u) in updates[1..].iter().enumerate() {
        assert_eq!((u.pos_start, u.pos_end), (1, 2));
        assert_eq!(u.seq_end, 4 + k);
        assert_eq!(u.parents.as_ref(), &[3 + k]);
    }
}

fn rebuild(oplog: &ListOpLog) -> ListOpLog {
    let updates = oplog.updates_since(&[]);

    let mut rebuilt = ListOpLog::new();
    for u in &updates {
        let agent = rebuilt.get_or_create_agent_id(&u.agent.to_string());
        let content = text(&u.content);
        let len = content.as_ref().map_or(u.pos_end - u.pos_start,
                                          |c| c.chars().count());
        let seq_start = u.seq_end + 1 - len;
        let op = if let Some(content) = &content {
            TextOperation::new_insert(u.pos_start, content)
        } else {
            let mut op = TextOperation::new_delete((u.pos_start .. u.pos_end).into());
            op.loc.fwd = false;
            op
        };
        // Emission order equals local order, so parents transfer as-is
        rebuilt.add_operations_remote(agent, u.parents.as_ref(), seq_start, &[op]);
    }
    rebuilt
}

// Rebuild a doc from its own updates and compare: where every run
// summarizes losslessly (fwd inserts, backward deletes) the oplogs
// must be byte-identical
fn round_trips_bytes(oplog: &ListOpLog) {
    let rebuilt = rebuild(oplog);
    assert_eq!(oplog.encode(&ENCODE_FULL), rebuilt.encode(&ENCODE_FULL));
}

// The run-joining predicate, enumerated dimension by dimension: only the
// all-good row may chain
#[test]
fn chains_dimension_table() {
    fn seg(agent: &str, seq_start: usize, len: usize, last_lv: LV) -> Run {
        let mut log = ListOpLog::new();
        let a = log.get_or_create_agent_id(agent);
        log.add_insert_at(a, &[], 0, "x");
        Run {
            op: TextOperation::new_insert(0, &"x".repeat(len)),
            agent: log.updates_since(&[])[0].agent.clone(),
            seq_start,
            parents: Frontier::root(),
            last_lv,
        }
    }

    let prev = seg("a", 10, 2, 7);   // covers seqs 10..12, ends at lv 7
    let good_op = TextOperation::new_insert(2, "y");

    for (same_agent, seq_contig, parents_chain, pos_append, expect) in [
        (true,  true,  true,  true,  true),
        (false, true,  true,  true,  false),
        (true,  false, true,  true,  false),
        (true,  true,  false, true,  false),
        (true,  true,  true,  false, false),
    ] {
        let agent = if same_agent { "a" } else { "b" };
        let seq = if seq_contig { 12 } else { 13 };
        let parents = if parents_chain { Frontier::new_1(7) }
                      else { Frontier::new_1(3) };
        let op = if pos_append { good_op.clone() }
                 else { TextOperation::new_insert(9, "y") };
        assert_eq!(chains(&prev, agent, seq, &parents, &op), expect,
                   "agent={same_agent} seq={seq_contig} parents={parents_chain} pos={pos_append}");
    }

    // Forward deletes never chain, in either role
    let fwd_del = TextOperation::new_delete((2..3).into());
    assert!(!chains(&prev, "a", 12, &Frontier::new_1(7), &fwd_del));
    let mut prev_del = seg("a", 10, 1, 7);
    prev_del.op = TextOperation::new_delete((2..3).into());
    assert!(!chains(&prev_del, "a", 11, &Frontier::new_1(7),
                    &TextOperation::new_delete((2..3).into())));
}

// A positional run crossing an agent boundary must break there: events
// by different agents are never one update. The validity
// assertion: the ops list really did rle-merge the two ops into one
// run, so the break is the predicate's doing
#[test]
fn cross_actor_run_splits() {
    let mut oplog = ListOpLog::new();
    let a = oplog.get_or_create_agent_id("a");
    let b = oplog.get_or_create_agent_id("b");
    oplog.add_insert_at(a, &[], 0, "ab");   // lv 0..2
    oplog.add_insert_at(b, &[1], 2, "cd");  // lv 2..4, positionally contiguous

    assert_eq!(oplog.iter_ops().len(), 1, "validity: ops rle-merged across agents");

    let updates = oplog.updates_since(&[]);
    assert_eq!(updates.len(), 2);
    assert_eq!(updates[0].agent.to_string(), "a");
    assert_eq!(updates[1].agent.to_string(), "b");
    assert_eq!(updates[1].parents.as_ref(), &[1]);
}

// A seq jump within one agent must break the run, even when everything
// else chains: seqs count events, so a gap means the two sides are not
// consecutive events and their seqs cannot be recovered from one version
#[test]
fn seq_jump_splits() {
    let mut oplog = ListOpLog::new();
    let a = oplog.get_or_create_agent_id("a");
    oplog.add_operations_remote(a, &[], 0, &[TextOperation::new_insert(0, "ab")]);
    oplog.add_operations_remote(a, &[1], 5, &[TextOperation::new_insert(2, "cd")]);

    assert_eq!(oplog.iter_ops().len(), 1, "validity: ops rle-merged across the gap");

    let updates = oplog.updates_since(&[]);
    assert_eq!(updates.len(), 2);
    assert_eq!(updates[0].seq_end, 1);
    assert_eq!(updates[1].seq_end, 6);
}

// Summarizing leans on reverse runs only existing for
// deletes, so insert content is always in doc
// order. Typing right to left stays two separate runs
#[test]
fn rev_insert_runs_cannot_form() {
    let mut oplog = ListOpLog::new();
    let a = oplog.get_or_create_agent_id("a");
    oplog.add_insert_at(a, &[], 0, "b");
    oplog.add_insert_at(a, &[0], 0, "a");

    let runs = oplog.iter_ops();
    assert_eq!(runs.len(), 2, "rev inserts must not merge into one run");

    // And each becomes its own update, chained
    let updates = oplog.updates_since(&[]);
    assert_eq!(updates.len(), 2);
    assert_eq!(text(&updates[0].content).as_deref(), Some("b"));
    assert_eq!(text(&updates[1].content).as_deref(), Some("a"));
    assert_eq!(updates[1].parents.as_ref(), &[0]);
}

fn frontier_names(log: &ListOpLog) -> Vec<String> {
    let mut v: Vec<String> = log.remote_frontier().iter()
        .map(|rv| format!("{}-{}", rv.0, rv.1)).collect();
    v.sort();
    v
}

// Rebuild an arbitrary doc from its updates: the text and version
// frontier must always survive. (Bytes can differ: fwd delete runs
// rebuild as per-event backward deletes.)
// Returns (had_fwd_multichar_del, had_cross_actor, had_rev_del)
fn semantic_round_trip(oplog: &ListOpLog) -> (bool, bool, bool) {
    let had_fwd_del = oplog.iter_ops().iter().any(|op|
        op.kind == ListOpKind::Del && op.loc.fwd && op.len() > 1);
    let had_rev_del = oplog.iter_ops().iter().any(|op|
        op.kind == ListOpKind::Del && !op.loc.fwd && op.len() > 1);

    let mut prev_agent: Option<String> = None;
    let mut had_cross_actor = false;
    for (_op, _entry, rvs) in oplog.iter_full_range((0..oplog.len()).into()).iter() {
        if let Some(pa) = &prev_agent {
            if pa != rvs.0 { had_cross_actor = true; }
        }
        prev_agent = Some(rvs.0.into());
    }

    let rebuilt = rebuild(oplog);

    // Version frontiers must match unconditionally
    assert_eq!(frontier_names(oplog), frontier_names(&rebuilt), "remote frontier must survive");

    assert_eq!(oplog.checkout_tip().content().to_string(),
               rebuilt.checkout_tip().content().to_string(),
               "text must survive the round trip");
    (had_fwd_del, had_cross_actor, had_rev_del)
}

fn xorshift(state: &mut u64, n: usize) -> usize {
    *state ^= *state << 13;
    *state ^= *state >> 7;
    *state ^= *state << 17;
    (*state as usize) % n
}

/// A history of three peers, each of which edits its own branch and now and then merges
/// with another one.
fn gen_oplog(seed: u64, steps: usize, use_unicode: bool, often_merge: bool) -> ListOpLog {
    let mut rng = seed.wrapping_mul(0x9E3779B97F4A7C15).wrapping_add(3);
    let plain: Vec<char> = "abcdefghij XYZ".chars().collect();
    let fancy: Vec<char> = "aé✓𐍈\u{1F600}ßz".chars().collect();
    let letters = if use_unicode { fancy } else { plain };

    let mut oplog = ListOpLog::new();
    let agents: Vec<_> = ["alice", "bob", "ca-rol"].iter()
        .map(|n| oplog.get_or_create_agent_id(n)).collect();
    let mut branches = vec![ListBranch::new(), ListBranch::new(), ListBranch::new()];

    for _ in 0..steps {
        for _ in 0..2 {
            let idx = xorshift(&mut rng, 3);
            let len = branches[idx].len();
            let version = branches[idx].local_frontier();
            let lv = if len > 3 && xorshift(&mut rng, 3) == 0 {
                let start = xorshift(&mut rng, len - 1);
                let count = 1 + xorshift(&mut rng, (len - start).min(3));
                oplog.add_delete_at(agents[idx], version.as_ref(), (start..start + count).into())
            } else {
                let pos = xorshift(&mut rng, len + 1);
                let count = 1 + xorshift(&mut rng, 3);
                let s: String = (0..count)
                    .map(|_| letters[xorshift(&mut rng, letters.len())]).collect();
                oplog.add_insert_at(agents[idx], version.as_ref(), pos, &s)
            };
            branches[idx].merge(&oplog, &[lv]);
        }

        if xorshift(&mut rng, if often_merge { 2 } else { 5 }) == 0 {
            let a = xorshift(&mut rng, 3);
            let b = (a + 1 + xorshift(&mut rng, 2)) % 3;
            let va = branches[a].local_frontier();
            let vb = branches[b].local_frontier();
            branches[a].merge(&oplog, vb.as_ref());
            branches[b].merge(&oplog, va.as_ref());
            assert_eq!(branches[a].content().to_string(), branches[b].content().to_string());
        }
    }
    oplog
}

fn gen_oplog_corpus(seeds: std::ops::Range<u64>, steps: usize) {
    let mut stats = (0, 0, 0, 0);
    for seed in seeds {
        let oplog = gen_oplog(seed, steps,
                              seed % 2 == 0, seed % 3 != 0);
        check_encode_at(&oplog);
        let (fwd_del, cross, rev_del) = semantic_round_trip(&oplog);
        stats.0 += 1;
        if fwd_del { stats.1 += 1 }
        if cross { stats.2 += 1 }
        if rev_del { stats.3 += 1 }
    }
    // Validity: the corpus must actually exercise the nasty dimensions
    assert!(stats.1 > 0, "corpus never produced a fwd multichar delete");
    assert!(stats.2 > 0, "corpus never produced a cross-actor run");
    println!("corpus: {} docs, {} with fwd multichar dels, {} with cross-actor runs, {} with rev dels",
             stats.0, stats.1, stats.2, stats.3);
}

#[test]
fn gen_oplog_round_trip_quick() {
    gen_oplog_corpus(0..30, 20);
}

// encode_at's contract, checked at every single-head frontier plus
// the tip:
//  - at the tip, byte-identical to encode()
//  - trimmed doc's text and version match checkout at that frontier
//  - trimmed doc + the patch since = the full doc (the partition)
fn check_encode_at(oplog: &ListOpLog) {
    let opts = &ENCODE_FULL;
    let full = oplog.encode(opts);
    assert_eq!(oplog.encode_at(oplog.local_frontier_ref(), opts), full,
               "tip must be byte-identical");

    for lv in (0..oplog.len()).step_by(3) {
        let frontier = [lv];
        let bytes = oplog.encode_at(&frontier, opts);
        let mut trimmed = ListOpLog::load_from(&bytes).unwrap();

        assert_eq!(trimmed.checkout_tip().content().to_string(),
                   oplog.checkout(&frontier).content().to_string(),
                   "trimmed text at {lv}");

        trimmed.decode_and_add(
            &oplog.encode_from(&ENCODE_PATCH, &frontier))
            .unwrap();
        assert_eq!(trimmed.checkout_tip().content().to_string(),
                   oplog.checkout_tip().content().to_string(),
                   "prefix + patch must rebuild the text at {lv}");
        assert_eq!(frontier_names(&trimmed), frontier_names(oplog),
                   "prefix + patch must rebuild the frontier at {lv}");
    }
}

#[test]
fn round_trip_summarizable_quick() {
    summarizable_seeds(0..50);
}

// Deterministic multi-actor histories built only from fwd inserts and
// backward deletes, with explicit seqs and partial concurrency: the
// shape where every run summarizes losslessly, so the rebuild must come
// back byte-exact
fn summarizable_seeds(seeds: std::ops::Range<u64>) {
    for seed in seeds {
        let mut rng = seed.wrapping_mul(0x9E3779B97F4A7C15).wrapping_add(1);
        let mut rand = move |n: usize| {
            rng ^= rng << 13; rng ^= rng >> 7; rng ^= rng << 17;
            (rng as usize) % n
        };

        let mut oplog = ListOpLog::new();
        let agents = ["al-ice", "bob", "carol"];
        let mut seqs = [0usize; 3];
        let mut frontier: Frontier = Frontier::root();

        for _ in 0..30 {
            let ai = rand(3);
            let agent = oplog.get_or_create_agent_id(agents[ai]);
            let doc_len = oplog.checkout_tip().len();
            let last = if rand(4) == 0 || frontier.is_root() {
                // sometimes branch from an older frontier
                frontier.clone()
            } else {
                Frontier::new_1(oplog.len() - 1)
            };

            let count = if doc_len > 2 && rand(3) == 0 {
                let start = rand(doc_len - 1);
                let len = 1 + rand((doc_len - start).min(3));
                let mut op = TextOperation::new_delete((start .. start + len).into());
                op.loc.fwd = false;
                oplog.add_operations_remote(agent, last.as_ref(), seqs[ai], &[op]);
                len
            } else {
                let pos = rand(doc_len + 1);
                let s = "abcdefgh"[rand(8)..].chars().next().unwrap()
                    .to_string().repeat(1 + rand(3));
                let count = s.chars().count();
                let op = TextOperation::new_insert(pos, &s);
                oplog.add_operations_remote(agent, last.as_ref(), seqs[ai], &[op]);
                count
            };
            seqs[ai] += count;
            frontier = oplog.local_frontier();
        }

        round_trips_bytes(&oplog);
        check_encode_at(&oplog);
    }
}

fn next(seed: &mut u64) -> usize {
    *seed = seed.wrapping_mul(6364136223846793005).wrapping_add(1442695040888963407);
    (*seed >> 33) as usize
}

/// A document with concurrent branches, so ancestor cones have gaps and
/// the encoded output really does need its local versions renumbered.
fn tangled_oplog(rounds: usize, window: usize, seed: &mut u64) -> (ListOpLog, Vec<Vec<LV>>) {
    let mut oplog = ListOpLog::new();
    let agents: Vec<_> = ["a", "b", "c"].iter()
        .map(|n| oplog.get_or_create_agent_id(n)).collect();
    let mut frontier: Vec<LV> = vec![];
    let mut len = 0usize;
    let mut checkpoints = vec![];

    for round in 0..rounds {
        let round_start = frontier.clone();
        let round_len = len;
        let mut tips = vec![];

        // A different pair of agents branches each round
        for &agent in [agents[round % 3], agents[(round + 1) % 3]].iter() {
            let mut parents = round_start.clone();
            let mut branch_len = round_len;
            for _ in 0..window {
                if branch_len > 4 && next(seed) % 4 == 0 {
                    let pos = next(seed) % (branch_len - 1);
                    branch_len -= 1;
                    parents = vec![oplog.add_delete_at(agent, &parents, (pos..pos + 1).into())];
                } else {
                    let pos = next(seed) % (branch_len + 1);
                    branch_len += 3;
                    parents = vec![oplog.add_insert_at(agent, &parents, pos, "abc")];
                }
            }
            tips.push(parents[0]);
            checkpoints.push(parents.clone());
        }

        tips.sort_unstable();
        len = oplog.checkout(&tips).len();
        frontier = tips.clone();
        checkpoints.push(tips);
    }

    (oplog, checkpoints)
}

/// encode_ranges must produce exactly what replaying the cone into a fresh
/// oplog produced, at every version -- this is a wire format, so "close
/// enough" isn't.
#[test]
fn encode_at_matches_the_rebuild() {
    let mut seed = 5150;
    let (oplog, checkpoints) = tangled_oplog(12, 7, &mut seed);

    for version in checkpoints.iter().chain(std::iter::once(&oplog.cg.version.as_ref().to_vec())) {
        let fast = oplog.encode_at(version, &ENCODE_FULL);
        let reference = oplog.encode_at_via_rebuild(version, &ENCODE_FULL);
        assert_eq!(fast, reference, "encoded bytes differ at {version:?}");
    }
}

/// ...and the bytes have to load back into the document that version saw.
#[test]
fn encode_at_round_trips() {
    let mut seed = 9001;
    let (oplog, checkpoints) = tangled_oplog(10, 5, &mut seed);

    for version in checkpoints.iter() {
        let bytes = oplog.encode_at(version, &ENCODE_FULL);
        let loaded = ListOpLog::load_from(&bytes).unwrap();
        assert_eq!(loaded.checkout_tip().content().to_string(),
                   oplog.checkout(version).content().to_string(),
                   "reloaded document differs at {version:?}");
    }
}
