use std::cmp::Ordering;
use textlog::agent_assignment::{AgentSpan, LV};
use textlog::branch::ListBranch;
use textlog::causal_graph::CausalGraph;
use textlog::encoding::{ENCODE_FULL, ENCODE_PATCH};
use textlog::merge::TransformedResultRaw;
use textlog::operation::{ListOpKind, TextOperation};
use textlog::oplog::ListOpLog;
use textlog::patches::Replacement;
use textlog::plan::M1PlanAction;
use textlog::braid::{parse_range, to_range_patch, xf_between, RangeError};
use textlog::relative_to_absolute::{can_convert, relative_to_absolute_patches};
use textlog::remote_ids::{RemoteVersion, VersionConversionError};

fn apply(text: &mut Vec<char>, op: &TextOperation) {
    match op.kind {
        ListOpKind::Ins => {
            let mut typed: Vec<char> = op.content_as_str().unwrap().chars().collect();
            if !op.loc.fwd {
                typed.reverse();
            }
            text.splice(op.start()..op.start(), typed);
        },
        ListOpKind::Del => {
            text.drain(op.start()..op.end());
        },
    }
}

fn read(branch: &ListBranch) -> Vec<char> {
    branch.content().to_string().chars().collect()
}

fn next(seed: &mut u64) -> usize {
    *seed = seed.wrapping_mul(6364136223846793005).wrapping_add(1442695040888963407);
    (*seed >> 33) as usize
}

// A log to which three authors add edits, each to some version of the document, which
// at times is the union of two.
fn scribble(mut seed: u64, edits: usize) -> ListOpLog {
    let mut log = ListOpLog::new();
    let agents = [
        log.get_or_create_agent_id("ann"),
        log.get_or_create_agent_id("bob"),
        log.get_or_create_agent_id("cy"),
    ];
    let mut heads: [Vec<LV>; 3] = [vec![], vec![], vec![]];
    for _ in 0..edits {
        let who = next(&mut seed) % 3;
        if next(&mut seed) % 4 == 0 {
            let other = next(&mut seed) % 3;
            heads[who] = log.version_union(&heads[who], &heads[other]).as_ref().to_vec();
        }
        let len = log.len_at(&heads[who]);
        let lv = if len > 0 && next(&mut seed) % 3 == 0 {
            let at = next(&mut seed) % len;
            let upto = at + 1 + next(&mut seed) % (len - at).min(3);
            log.add_delete_at(agents[who], &heads[who], (at..upto).into())
        } else {
            let at = next(&mut seed) % (len + 1);
            let text = ["x", "yé", "zzz"][next(&mut seed) % 3];
            log.add_insert_at(agents[who], &heads[who], at, text)
        };
        heads[who] = vec![lv];
    }
    log
}

// What the transformed operations between two versions do turns the document at the one
// into the document at the union of both.
#[test]
fn transformed_runs_bring_a_document_up_to_date() {
    for seed in 0..40 {
        let log = scribble(seed, 12);
        for from in 0..log.len() {
            let mut text = read(&log.checkout(&[from]));
            for (_, op) in log.iter_xf_operations_from(&[from], log.local_frontier_ref()) {
                if let Some(op) = op {
                    apply(&mut text, &op);
                }
            }
            assert_eq!(text, read(&log.checkout_tip()), "seed {seed} from {from}");
        }
    }
}

// The operations between any two versions turn the document at the one into that at the
// other, also where the other one lacks something.
#[test]
fn to_any_version_and_back() {
    for seed in 0..12 {
        let log = scribble(seed + 700, 14);
        for a in 0..log.len() {
            for b in 0..log.len() {
                let mut text = read(&log.checkout(&[a]));
                for op in xf_between(&log, &[a], &[b]) {
                    if op.kind == "Ins" {
                        text.splice(op.start..op.start, op.content.chars());
                    } else {
                        text.drain(op.start..op.end);
                    }
                }
                assert_eq!(text, read(&log.checkout(&[b])), "from {a} to {b}");
            }
        }
    }
}

// Whether events are taken as they are or transformed, the outcome is the same.
#[test]
fn taking_events_as_they_are_changes_nothing() {
    for seed in 0..40 {
        let log = scribble(seed, 12);
        for ops in [log.iter_xf_operations(), log.dbg_iter_xf_operations_no_ff()] {
            let mut text = Vec::new();
            let mut at = 0;
            for (range, op) in ops {
                assert_eq!(range.start, at);
                at = range.end;
                if let Some(op) = op {
                    assert_eq!(op.len(), range.len());
                    apply(&mut text, &op);
                }
            }
            assert_eq!(at, log.len());
            assert_eq!(text, read(&log.checkout_tip()));
        }
    }
}

// Peers that hear of the same events in different orders read the same.
#[test]
fn peers_converge() {
    for seed in 0..40 {
        let log = scribble(seed, 14);
        let mut other = ListOpLog::new();
        // The newest versions one by one, the last one first.
        for lv in log.local_frontier_ref().iter().rev() {
            other.decode_and_add(&log.encode_at(&[*lv], &ENCODE_FULL)).unwrap();
        }
        assert_eq!(other.len(), log.len());
        assert_eq!(read(&other.checkout_tip()), read(&log.checkout_tip()));
        for lv in 0..log.len() {
            let name = log.cg.agent_assignment.local_to_remote_version(lv);
            let there = other.cg.agent_assignment.try_remote_to_local_version(name).unwrap();
            assert_eq!(read(&other.checkout(&[there])), read(&log.checkout(&[lv])));
        }
    }
}

// A branch that is brought along step by step ends where a checkout starts out.
#[test]
fn merging_step_by_step() {
    for seed in 0..40 {
        let log = scribble(seed, 12);
        let mut branch = ListBranch::new();
        for lv in 0..log.len() {
            branch.merge(&log, &[lv]);
            assert_eq!(branch.len(), log.len_at(branch.local_frontier_ref()));
        }
        assert_eq!(branch.local_frontier_ref(), log.local_frontier_ref());
        assert_eq!(read(&branch), read(&log.checkout_tip()));
    }
}

#[test]
fn lengths_add_up() {
    for seed in 0..40 {
        let log = scribble(seed, 12);
        for a in 0..log.len() {
            let b = (a * 7 + 3) % log.len();
            let both = log.version_union(&[a], &[b]);
            let more = log.len_at(both.as_ref()) as isize - log.len_at(&[a]) as isize;
            assert_eq!(log.len_delta(&[a], &[b]), more);
        }
    }
}

// The replacements since a version make of the text then what it is now.
#[test]
fn replacements_since_a_version() {
    for seed in 0..40 {
        let log = scribble(seed, 12);
        for from in 0..log.len() {
            let mut text = read(&log.checkout(&[from]));
            let patches = log.xf_absolute_since(&[from]);
            // Each ends before the next one starts, so made from the last one on they do
            // not disturb each other.
            for pair in patches.windows(2) {
                assert!(pair[0].range.end < pair[1].range.start);
            }
            for p in patches.iter().rev() {
                let typed: Vec<char> = p.content.to_string().chars().collect();
                text.splice(p.range.start..p.range.end, typed);
            }
            assert_eq!(text, read(&log.checkout_tip()), "seed {seed} from {from}");
        }
    }
}

#[test]
fn a_plan_takes_every_event_once() {
    for seed in 0..20 {
        let log = scribble(seed, 12);
        for ff in [false, true] {
            let plan = log.cg.graph.make_m1_plan(&[], log.local_frontier_ref(), ff);
            let mut at = 0;
            let (mut clears, mut applied, mut fast) = (0, 0, 0);
            for step in &plan.0 {
                match step {
                    M1PlanAction::Clear => clears += 1,
                    M1PlanAction::Apply(r) => {
                        assert_eq!(r.start, at);
                        at = r.end;
                        applied += r.len();
                    },
                    M1PlanAction::FF(r) => {
                        assert!(ff);
                        assert_eq!(r.start, at);
                        at = r.end;
                        fast += r.len();
                    },
                }
            }
            assert_eq!(at, log.len());
            if ff {
                assert_eq!(log.get_ff_stats(), (clears, applied, fast));
            }
        }
        log.dbg_bench_make_plan();
    }
}

#[test]
fn plans_and_conflicts() {
    let mut log = ListOpLog::new();
    let a = log.get_or_create_agent_id("a");
    let b = log.get_or_create_agent_id("b");
    let base = log.add_insert_at(a, &[], 0, "abc");
    assert_eq!(log.get_ff_stats(), (0, 0, 3));
    let left = log.add_insert_at(a, &[base], 1, "LL");
    // Nobody has edited at the same time yet.
    assert!(!log.has_conflicts_when_merging());
    let right = log.add_delete_at(b, &[base], (0..1).into());
    assert!(!log.has_conflicts_when_merging());
    let raws = log.transform(&[left], &[right], true);
    assert_eq!(raws.len(), 1);
    match &raws[0] {
        TransformedResultRaw::Apply { xf_pos, .. } => assert_eq!(*xf_pos, 0),
        other => panic!("{other:?}"),
    }
    log.add_insert_at(b, &[base], 1, "RR");
    assert!(log.has_conflicts_when_merging());
    assert_eq!(log.checkout_tip().content().to_string(), "LLRRbc");
}

// The same character deleted by two: the second delete has nothing left to do.
#[test]
fn deletes_that_meet() {
    let mut log = ListOpLog::new();
    let a = log.get_or_create_agent_id("a");
    let b = log.get_or_create_agent_id("b");
    let base = log.add_insert_at(a, &[], 0, "abcd");
    let one = log.add_delete_at(a, &[base], (1..3).into());
    log.add_delete_at(b, &[base], (2..4).into());
    let xf = log.get_xf_operations_full(&[one], log.local_frontier_ref());
    assert_eq!(xf.len(), 2);
    assert!(matches!(xf[0], TransformedResultRaw::DeleteAlreadyHappened(r) if r.len() == 1));
    let runs = log.iter_xf_operations_from(&[one], log.local_frontier_ref());
    assert_eq!(runs.len(), 2);
    assert_eq!(runs[0].1, None);
    assert_eq!(runs[1].1.as_ref().map(|op| (op.start(), op.end())), Some((1, 2)));
    assert_eq!(log.checkout_tip().content().to_string(), "a");
}

#[test]
fn logs_that_cannot_be_played() {
    let mut log = ListOpLog::new();
    let a = log.get_or_create_agent_id("a");
    assert!(log.is_playable());
    log.add_insert_at(a, &[], 0, "ab");
    assert!(log.is_playable());
    // Behind the end of the document that it follows.
    let mut far = log.copied();
    far.add_insert_at(a, &[0], 2, "x");
    assert!(!far.is_playable());
    let mut gone = log.copied();
    gone.add_delete_at(a, &[1], (1..3).into());
    assert!(!gone.is_playable());
    log.add_insert_at(a, &[1], 2, "x");
    assert!(log.is_playable());
}

// What has been heard of does not change when more is heard of.
#[test]
fn the_past_stays() {
    let mut log = ListOpLog::new();
    let a = log.get_or_create_agent_id("a");
    let b = log.get_or_create_agent_id("b");
    let base = log.add_insert_at(a, &[], 0, "hello");
    let before: Vec<Vec<char>> = (0..5).map(|v| read(&log.checkout(&[v]))).collect();
    log.add_insert_at(b, &[2], 1, "XX");
    log.add_delete_at(a, &[base], (0..5).into());
    for v in 0..5 {
        assert_eq!(read(&log.checkout(&[v])), before[v]);
    }
}

// The updates since a version, and the events of the version, are all events.
#[test]
fn updates_tell_of_every_event() {
    for seed in 0..20 {
        let log = scribble(seed, 12);
        for from in 0..log.len() {
            let told: usize = log.updates_since(&[from]).iter()
                .map(|u| u.pos_end - u.pos_start).sum();
            let known = log.copied();
            let there = ListOpLog::load_from(&known.encode_at(&[from], &ENCODE_FULL)).unwrap();
            assert_eq!(told + there.len(), log.len());
        }
        for mid in 0..=log.len() {
            let whole: usize = log.updates_in_span((0..log.len()).into()).iter()
                .map(|u| u.pos_end - u.pos_start).sum();
            let parts: usize = [(0..mid), (mid..log.len())].into_iter()
                .flat_map(|r| log.updates_in_span(r.into()))
                .map(|u| u.pos_end - u.pos_start).sum();
            assert_eq!(whole, parts);
        }
    }
}

// Bytes are what the events are, whichever order they came in.
#[test]
fn bytes_are_read_back() {
    for seed in 0..20 {
        let log = scribble(seed, 12);
        let back = ListOpLog::load_from(&log.encode(&ENCODE_FULL)).unwrap();
        assert_eq!(back.encode(&ENCODE_FULL), log.encode(&ENCODE_FULL));
        assert_ne!(log.encode(&ENCODE_PATCH), log.encode(&ENCODE_FULL));
        for from in 0..log.len() {
            let mut half = ListOpLog::load_from(&log.encode_at(&[from], &ENCODE_FULL)).unwrap();
            half.decode_and_add(&log.encode_from(&ENCODE_PATCH, &[from])).unwrap();
            assert_eq!(half.len(), log.len());
            assert_eq!(read(&half.checkout_tip()), read(&log.checkout_tip()));
            assert_eq!(
                log.encode_at(&[from], &ENCODE_FULL),
                log.encode_at_via_rebuild(&[from], &ENCODE_FULL)
            );
        }
    }
}

#[test]
fn names_of_events() {
    let mut log = ListOpLog::new();
    let a = log.get_or_create_agent_id("a");
    assert_eq!(log.get_or_create_agent_id("a"), a);
    log.get_or_create_agent_id("idle");
    log.add_insert_at(a, &[], 0, "ab");
    let aa = &log.cg.agent_assignment;
    assert_eq!(aa.try_remote_to_local_version(RemoteVersion("a", 1)), Ok(1));
    assert_eq!(
        aa.try_remote_to_local_version(RemoteVersion("a", 2)),
        Err(VersionConversionError::SeqInFuture)
    );
    assert_eq!(
        aa.try_remote_to_local_version(RemoteVersion("b", 0)),
        Err(VersionConversionError::UnknownAgent)
    );
    assert_eq!(
        aa.try_remote_to_local_version(RemoteVersion("idle", 0)),
        Err(VersionConversionError::SeqInFuture)
    );
    assert_eq!(aa.local_to_remote_version(1), RemoteVersion("a", 1));
    let spans = log.iter_remote_mappings();
    assert_eq!(spans.len(), 1);
    assert_eq!((spans[0].0, spans[0].1.start, spans[0].1.end), ("a", 0, 2));
    assert_eq!(log.find_event("a", 0), Some(0));
    assert_eq!(log.find_event("idle", 0), None);
    assert_eq!(log.get_agent_name(a), "a");
}

// An agent counts on behind the last of its events that is known.
#[test]
fn agents_count_on() {
    let mut log = ListOpLog::new();
    let a = log.get_or_create_agent_id("a");
    log.add_insert_at(a, &[], 0, "ab");
    log.cg.agent_assignment.get_or_create_agent_id("b");
    assert_eq!(log.cg.agent_assignment.client_data[0].get_next_seq(), 2);
    assert_eq!(log.cg.agent_assignment.client_data[1].get_next_seq(), 0);
    log.add_delete_at(a, &[1], (0..1).into());
    assert_eq!(log.find_event("a", 2), Some(2));
    assert_eq!(log.find_event("a", 3), None);
    assert_eq!(log.cg.agent_assignment.client_data[0].get_next_seq(), 3);
}

// Names are longer than what a string keeps inline, too.
#[test]
fn ties_between_events() {
    let long = "a name that is much too long to be kept inline";
    let mut cg = CausalGraph::new();
    let b = cg.get_or_create_agent_id("b");
    let a = cg.get_or_create_agent_id(long);
    cg.merge_and_assign(&[], AgentSpan { agent: b, seq_range: (0..3).into() });
    cg.merge_and_assign(&[], AgentSpan { agent: a, seq_range: (5..8).into() });
    let aa = &cg.agent_assignment;
    assert_eq!(aa.get_agent_name(a), long);
    assert_eq!(aa.tie_break_agent_versions((a, 9), (b, 0)), Ordering::Less);
    assert_eq!(aa.tie_break_agent_versions((b, 0), (a, 9)), Ordering::Greater);
    assert_eq!(aa.tie_break_agent_versions((b, 0), (b, 1)), Ordering::Less);
    assert_eq!(aa.tie_break_agent_versions((b, 2), (b, 1)), Ordering::Greater);
    assert_eq!(aa.tie_break_agent_versions((b, 2), (b, 2)), Ordering::Equal);
    assert_eq!(aa.tie_break_agent_versions((77, 2), (77, 2)), Ordering::Equal);
    assert_eq!(aa.tie_break_versions(0, 3), Ordering::Greater);
    assert_eq!(aa.tie_break_versions(3, 4), Ordering::Less);
    assert_eq!(aa.tie_break_versions(4, 4), Ordering::Equal);
}

#[test]
fn local_and_agent_versions() {
    let mut cg = CausalGraph::new();
    let a = cg.get_or_create_agent_id("a");
    let b = cg.get_or_create_agent_id("b");
    cg.merge_and_assign(&[], AgentSpan { agent: a, seq_range: (0..2).into() });
    cg.merge_and_assign(&[1], AgentSpan { agent: b, seq_range: (0..3).into() });
    cg.merge_and_assign(&[4], AgentSpan { agent: a, seq_range: (2..5).into() });
    let aa = &mut cg.agent_assignment;
    assert_eq!(aa.len(), 8);
    assert_eq!(aa.local_to_agent_version(6), (a, 3));
    assert_eq!(aa.try_agent_version_to_lv((a, 3)), Some(6));
    assert_eq!(aa.try_agent_version_to_lv((a, 5)), None);
    let span = aa.local_span_to_agent_span((3..8).into());
    assert_eq!((span.agent, span.seq_range.start, span.seq_range.end), (b, 1, 3));
    assert_eq!(aa.iter_lv_map_for_agent(a), vec![(0, 0, 2), (2, 5, 3)]);
    let data = &aa.client_data[a as usize];
    assert_eq!(data.get_next_seq(), 5);
    assert!(!data.is_empty());
    assert_eq!(data.try_seq_to_lv(1), Some(1));
    assert_eq!(data.try_seq_to_lv(5), None);
    assert_eq!(data.seq_to_lv(4), 7);
    assert_eq!(data.try_seq_to_lv_span((1..4).into()).map(|r| (r.start, r.end)), Some((1, 2)));
    assert_eq!(data.seq_to_time_span((2..3).into()).len(), 1);
    aa.assign_lv_to_client_next_seq(b, (8..10).into());
    assert_eq!(aa.local_to_agent_version(9), (b, 4));
    let c = aa.get_or_create_agent_id("c");
    assert_eq!(aa.get_agent_id("c"), Some(c));
    aa.truncate_agents(2);
    assert_eq!(aa.get_agent_id("c"), None);
    assert_eq!(aa.get_agent_id("b"), Some(b));
    assert!(!aa.is_empty());
}

// Applied together, replacements do what they do one after the other.
#[test]
fn replacements_can_be_made_at_once() {
    let list = [
        Replacement::new(4, 6, "XYZ"),
        Replacement::new(0, 1, ""),
        Replacement::new(5, 9, "\u{1F600}"),
        Replacement::new(2, 2, "é"),
    ];
    assert!(can_convert(&list));
    let out = relative_to_absolute_patches(&list);
    let said: Vec<(usize, usize, String)> =
        out.iter().map(|p| (p.range.start, p.range.end, p.content.to_string())).collect();
    let mut one: Vec<char> = "0123456789ab".chars().collect();
    let mut all = one.clone();
    for p in &list {
        one.splice(p.range.start..p.range.end, p.content.to_string().chars());
    }
    for p in out.iter().rev() {
        all.splice(p.range.start..p.range.end, p.content.to_string().chars());
    }
    assert_eq!(one, all);
    assert_eq!(said, vec![
        (0, 1, String::new()),
        (3, 3, "é".to_string()),
        (4, 9, "XY\u{1F600}".to_string()),
    ]);
    assert!(!can_convert(&[Replacement::new(3, 2, "")]));
}

// Many replacements, which the larger of the two stores takes.
// Made from the right to the left, converted replacements are converted to themselves.
#[test]
fn converting_again() {
    let mut seed = 4711;
    for _ in 0..50 {
        let mut list = Vec::new();
        for _ in 0..12 {
            let start = next(&mut seed) % 40;
            let end = start + next(&mut seed) % 6;
            list.push(Replacement::new(start, end, ["", "a", "bcd"][next(&mut seed) % 3]));
        }
        let out = relative_to_absolute_patches(&list);
        let mut back: Vec<Replacement> = out.clone();
        back.reverse();
        assert!(can_convert(&back));
        assert_eq!(relative_to_absolute_patches(&back), out);
    }
}

#[test]
fn many_replacements() {
    let list: Vec<Replacement> =
        (0..500).map(|k| Replacement::new(2 * k, 2 * k, "+")).collect();
    let out = relative_to_absolute_patches(&list);
    assert_eq!(out.len(), 500);
    for (k, p) in out.iter().enumerate() {
        assert_eq!((p.range.start, p.range.end), (k, k));
    }
}

// An operation does what its events do one by one.
#[test]
fn operations_are_their_events() {
    let del = TextOperation::new_delete((3..6).into());
    let ins = TextOperation::new_insert(1, "aéz");
    assert_eq!((del.len(), ins.len()), (3, 3));
    assert_eq!(ins.between(1, 3).content_as_str(), Some("éz"));
    assert_eq!(ins.between(1, 3).start(), 2);
    assert_eq!(del.between(1, 2).start(), 3);
    for op in [del, ins] {
        let mut whole: Vec<char> = "0123456789".chars().collect();
        let mut parts = whole.clone();
        apply(&mut whole, &op);
        for k in 0..op.len() {
            apply(&mut parts, &op.between(k, k + 1));
        }
        assert_eq!(whole, parts);
    }
}

// An update, applied to the document at its parents, gives the document at its version.
#[test]
fn updates_carry_the_document() {
    for seed in 0..20 {
        let log = scribble(seed, 12);
        for u in log.updates_since(&[]) {
            let mut text = read(&log.checkout(u.parents.as_ref()));
            let typed: Vec<char> = match &u.content {
                Some(c) => c.to_string().chars().collect(),
                None => Vec::new(),
            };
            let end = if u.content.is_some() { u.pos_start } else { u.pos_end };
            text.splice(u.pos_start..end, typed);
            let lv = log.find_event(&u.agent.to_string(), u.seq_end).unwrap();
            assert_eq!(text, read(&log.checkout(&[lv])));
        }
    }
}

// What is written of a version is what was written of the log when it was the newest.
#[test]
fn bytes_of_back_then() {
    let mut log = scribble(3, 8);
    let then = log.local_frontier();
    let bytes = log.encode(&ENCODE_FULL);
    let a = log.get_or_create_agent_id("ann");
    log.add_insert_at(a, then.as_ref(), 0, "later");
    log.add_insert_at(a, &[0], 0, "elsewhere");
    assert_eq!(log.encode_at(then.as_ref(), &ENCODE_FULL), bytes);
    assert_ne!(log.encode(&ENCODE_FULL), bytes);
}

// Versions are merged in either order, and more than once.
#[test]
fn the_order_of_merging() {
    for seed in 0..20 {
        let log = scribble(seed, 10);
        let n = log.len();
        for k in 0..n {
            let (a, b) = ([k], [(k * 5 + 1) % n]);
            let mut left = ListBranch::new();
            left.merge(&log, &a);
            left.merge(&log, &b);
            let mut right = ListBranch::new();
            right.merge(&log, &b);
            right.merge(&log, &a);
            assert_eq!(left.local_frontier_ref(), right.local_frontier_ref());
            assert_eq!(read(&left), read(&right));
            let (version, text) = (left.local_frontier(), read(&left));
            left.merge(&log, &b);
            assert_eq!((left.local_frontier(), read(&left)), (version, text));
        }
    }
}

// A peer that numbers the events otherwise has them in its own order.
#[test]
fn parents_are_sorted_where_they_arrive() {
    let mut log = ListOpLog::new();
    let a = log.get_or_create_agent_id("a");
    let b = log.get_or_create_agent_id("b");
    let one = log.add_insert_at(a, &[], 0, "1");
    let two = log.add_insert_at(b, &[], 0, "2");
    let both = log.add_insert_at(a, &[one, two], 2, "3");
    let mut other = ListOpLog::new();
    other.decode_and_add(&log.encode_at(&[two], &ENCODE_FULL)).unwrap();
    other.decode_and_add(&log.encode_at(&[one], &ENCODE_FULL)).unwrap();
    let front = other.decode_and_add(&log.encode_from(&ENCODE_PATCH, &[one, two])).unwrap();
    assert_eq!(front.as_ref(), &[both]);
    assert_eq!(other.find_event("b", 0), Some(0));
    assert_eq!(other.find_event("a", 0), Some(1));
    let history = other.iter_history();
    assert_eq!(history.last().unwrap().parents.as_ref(), &[0, 1]);
    assert_eq!(read(&other.checkout_tip()), read(&log.checkout_tip()));
}

#[test]
fn texts_for_ranges() {
    for (start, end) in [(0, 0), (7, 10), (9, 100), (usize::MAX, 0)] {
        let said = to_range_patch(&Replacement::new(start, end, "é"));
        assert_eq!(said.unit, "text");
        assert_eq!(said.content, "é");
        assert_eq!(said.range, format!("[{start}:{end}]"));
        let back = parse_range(&said.range).unwrap();
        assert_eq!((back.start, back.end), (start, end));
    }
    assert_eq!(parse_range("[3]"), Err(RangeError::Bad));
    assert_eq!(parse_range("[1:99999999999999999999999]"), Err(RangeError::TooLarge));
    assert_eq!(parse_range("99999999999999999999999"), Err(RangeError::TooLarge));
}

// What is taken as it is and what is transformed are all events.
#[test]
fn plans_add_up() {
    for seed in 0..20 {
        let log = scribble(seed, 12);
        let (_, applied, fast) = log.get_ff_stats();
        assert_eq!(applied + fast, log.len());
    }
}

// A log that is nearly full is sent what it knows.
#[test]
fn known_events_need_no_room() {
    let mut full = ListOpLog::new();
    let a = full.get_or_create_agent_id("a");
    full.add_delete_at(a, &[], (0..usize::MAX - 1).into());
    let added = full.add_operations_remote(a, &[], 0, &[TextOperation::new_delete((0..5).into())]);
    assert_eq!((added.start, added.end), (usize::MAX - 1, usize::MAX - 1));
    let b = full.get_or_create_agent_id("b");
    full.add_operations_remote(b, &[], 7, &[TextOperation::new_insert(0, "x")]);
    full.add_operations_remote(b, &[], 7, &[TextOperation::new_insert(0, "x")]);
    assert_eq!(full.len(), usize::MAX);
    assert_eq!(full.find_event("b", 7), Some(usize::MAX - 1));
}
