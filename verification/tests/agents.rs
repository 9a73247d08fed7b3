use textlog::agent_assignment::AgentSpan;
use textlog::causal_graph::CausalGraph;

/// An author's sequence numbers stay contiguous even when his edits are
/// interleaved with somebody else's, which splits them across several
/// stored entries. known_seq_span has to report the whole run regardless.
#[test]
fn merges_across_interleaved_entries() {
    let mut cg = CausalGraph::new();
    let a = cg.get_or_create_agent_id("a");
    let b = cg.get_or_create_agent_id("b");

    // a writes seqs 0..5, then b interrupts, then a continues at seq 5
    cg.merge_and_assign(&[], AgentSpan { agent: a, seq_range: (0..5).into() });
    cg.merge_and_assign(&[], AgentSpan { agent: b, seq_range: (0..3).into() });
    cg.merge_and_assign(&[], AgentSpan { agent: a, seq_range: (5..9).into() });

    let aa = &cg.agent_assignment;
    // a's stored entries are split, but the run is 0..9 throughout
    for probe in 0..9usize {
        let span = aa.known_seq_span(a, (probe..probe + 1).into())
            .unwrap_or_else(|| panic!("missing seq {probe}"));
        assert_eq!((span.start, span.end), (0, 9), "at seq {probe}");
    }
    assert_eq!(aa.known_seq_span(a, (9..10).into()), None);
    assert_eq!(aa.known_seq_span(b, (0..1).into()).map(|s| (s.start, s.end)), Some((0, 3)));
    assert_eq!(aa.known_seq_span(b, (3..4).into()), None);
}

/// A query overlapping the run only at its far end still finds it. Asking
/// "have I already seen any of these seqs?" depends on it: a caller that
/// missed a partial overlap would take an edit it already holds for a new
/// one.
#[test]
fn finds_a_run_the_query_only_touches() {
    let mut cg = CausalGraph::new();
    let a = cg.get_or_create_agent_id("a");
    cg.merge_and_assign(&[], AgentSpan { agent: a, seq_range: (8..12).into() });
    let aa = &cg.agent_assignment;

    // query spans a gap and then reaches the run
    assert_eq!(aa.known_seq_span(a, (5..11).into()).map(|s| (s.start, s.end)), Some((8, 12)));
    // query entirely below it
    assert_eq!(aa.known_seq_span(a, (0..8).into()), None);
    // query entirely above it
    assert_eq!(aa.known_seq_span(a, (12..20).into()), None);
    // unknown agent
    assert_eq!(aa.known_seq_span(99, (0..1).into()), None);
}
