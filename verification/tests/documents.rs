use textlog::admission::can_read;
use textlog::agent_assignment::can_name;
use textlog::braid::{parse_range, xf_between, BadRange, RangePatch, TextPatch, XfOp};
use textlog::decoding::ParseError;
use textlog::doc::{Branch, Doc, OpLog};
use textlog::remote_ops::{RemoteOp, VersionNotFound};

fn names(ids: &[&str]) -> Vec<String> {
    ids.iter().map(|s| s.to_string()).collect()
}

fn remote(agent: &str, seq: usize, parents: &[&str], pos: usize, del: usize, ins: Option<&str>) -> RemoteOp {
    RemoteOp {
        agent: agent.to_string(),
        seq,
        parents: names(parents),
        pos,
        del,
        ins: ins.map(|s| s.to_string()),
    }
}

#[test]
fn typing_and_deleting() {
    let mut doc = Doc::new(Some("a"));
    assert!(doc.is_empty());
    doc.ins(0, "hello");
    doc.ins(5, " world");
    doc.del(0, 1);
    doc.ins(0, "J");
    assert_eq!(doc.get(), "Jello world");
    assert_eq!(doc.len(), 11);
    assert!(!doc.is_empty());
    // One event per character that was typed or deleted.
    assert_eq!(doc.num_local_versions(), 13);
    assert_eq!(doc.get_local_frontier(), vec![12]);
    let tip = doc.get_remote_version();
    assert_eq!((tip[0].0, tip[0].1), ("a", 12));
}

#[test]
fn earlier_versions_can_be_read() {
    let mut doc = Doc::new(Some("a"));
    doc.ins(0, "abc");
    doc.del(1, 1);
    doc.ins(2, "xyz");
    assert_eq!(doc.get_string_at(&[]), "");
    assert_eq!(doc.get_string_at(&[1]), "ab");
    assert_eq!(doc.get_string_at(&[2]), "abc");
    assert_eq!(doc.get_string_at(&[3]), "ac");
    assert_eq!(doc.get_string_at(&[6]), "acxyz");
    for lv in 0..7 {
        assert_eq!(doc.len_at(&[lv]), doc.get_string_at(&[lv]).chars().count());
        let rest = doc.len() as isize - doc.len_at(&[lv]) as isize;
        assert_eq!(doc.len_since(&[lv]), rest);
    }
    assert_eq!(doc.len_since(&[2]), 2);
    assert_eq!(doc.len_since(&[]), 5);
}

// A version that had more characters than the newest one has.
#[test]
fn documents_can_shrink() {
    let mut doc = Doc::new(Some("a"));
    doc.ins(0, "abcdef");
    doc.del(0, 4);
    assert_eq!(doc.len_since(&[5]), -4);
}

#[test]
fn two_peers_meet() {
    let mut a = Doc::new(Some("a"));
    a.ins(0, "shared ");
    let mut b = Doc::from_bytes(&a.to_bytes(), Some("b")).unwrap();
    assert_eq!(b.get(), "shared ");

    let met = a.get_local_frontier();
    a.ins(7, "left");
    b.ins(7, "right");
    b.del(0, 1);

    let from_a = a.get_patch_since(&met);
    let from_b = b.get_patch_since(&met);
    let told = a.merge_bytes(&from_b).unwrap();
    b.merge_bytes(&from_a).unwrap();
    assert_eq!(a.get(), b.get());
    assert_eq!(a.get(), "hared leftright");
    // The newest event that the bytes told of is b's last one.
    assert_eq!(a.local_to_remote_version(&told)[0].0, "b");
    assert_eq!(a.local_to_remote_version(&told)[0].1, 5);

    // Hearing of the same events again changes nothing.
    let before = a.num_local_versions();
    a.merge_bytes(&from_b).unwrap();
    assert_eq!(a.num_local_versions(), before);
    assert_eq!(a.get(), "hared leftright");
}

// Both edits stand, and the one that stands first is the one by the author whose name
// comes first, whoever hears of whom.
#[test]
fn the_authors_names_break_ties() {
    for flip in [false, true] {
        let mut doc = Doc::new(None);
        let one = remote("ann", 0, &[], 0, 0, Some("AA"));
        let two = remote("bob", 0, &[], 0, 0, Some("BB"));
        let list = if flip { vec![two, one] } else { vec![one, two] };
        doc.apply_remote_ops_js(&list).unwrap();
        assert_eq!(doc.get(), "AABB");
    }
}

#[test]
fn edits_of_peers() {
    let mut doc = Doc::new(None);
    assert_eq!(doc.apply_remote_op_js(&remote("p-q", 0, &[], 0, 0, Some("hello"))), Ok((0, 5)));
    assert_eq!(doc.apply_remote_op_js(&remote("p-q", 5, &["p-q-4"], 1, 3, None)), Ok((5, 8)));
    assert_eq!(doc.get(), "ho");
    // What is known is not added again.
    assert_eq!(doc.apply_remote_op_js(&remote("p-q", 0, &[], 0, 0, Some("hello"))), Ok((8, 8)));
    // An edit of which a part is known.
    assert_eq!(doc.apply_remote_op_js(&remote("r", 0, &["p-q-7"], 2, 0, Some("x"))), Ok((8, 9)));
    assert_eq!(doc.apply_remote_op_js(&remote("r", 0, &["p-q-7"], 2, 0, Some("xyz"))), Ok((9, 11)));
    assert_eq!(doc.get(), "hoxyz");
    // One that does nothing.
    assert_eq!(doc.apply_remote_op_js(&remote("s", 0, &["r-2"], 2, 0, None)), Ok((11, 11)));
    assert_eq!(doc.get(), "hoxyz");

    assert_eq!(
        doc.apply_remote_op_js(&remote("s", 0, &["r-2", "nobody-0"], 0, 0, Some("!"))),
        Err(VersionNotFound("nobody-0".to_string()))
    );
    assert_eq!(doc.num_local_versions(), 11);
}

#[test]
fn several_edits_of_peers() {
    let mut doc = Doc::new(None);
    let ok = [
        remote("a", 0, &[], 0, 0, Some("ab")),
        remote("b", 0, &["a-1"], 2, 0, Some("cd")),
        remote("a", 2, &["b-1"], 0, 2, None),
    ];
    doc.apply_remote_ops_js(&ok).unwrap();
    assert_eq!(doc.get(), "cd");

    // The edits before the one that cannot be placed stay recorded; the document is not
    // brought up to date with them.
    let bad = [
        remote("a", 4, &["a-3"], 0, 0, Some("x")),
        remote("a", 5, &["c-0"], 0, 0, Some("y")),
    ];
    assert_eq!(doc.apply_remote_ops_js(&bad), Err(VersionNotFound("c-0".to_string())));
    assert_eq!(doc.num_local_versions(), 7);
    assert_eq!(doc.get(), "cd");
    doc.merge(&[6]);
    assert_eq!(doc.get(), "xcd");
}

#[test]
fn known_counts_of_an_author() {
    let mut doc = Doc::new(None);
    doc.apply_remote_op_js(&remote("a", 3, &[], 0, 0, Some("xyz"))).unwrap();
    assert_eq!(doc.known_seq_span_js("a", 0, 3), Some((3, 5)));
    assert_eq!(doc.known_seq_span_js("a", 5, 9), Some((3, 5)));
    assert_eq!(doc.known_seq_span_js("a", 0, 2), None);
    assert_eq!(doc.known_seq_span_js("a", 6, 6), None);
    assert_eq!(doc.known_seq_span_js("b", 0, 9), None);
}

#[test]
fn events_by_name() {
    let mut doc = Doc::new(Some("x-y"));
    doc.ins(0, "abcd");
    let all = names(&["x-y-2", "x-y-0"]);
    assert_eq!(doc.remote_to_local_version_js(&all, None), Ok(vec![0, 2]));
    for bad in ["x-y-4", "x-0", "xy", "x-y-", "x-y-2x", "x-y--1", "-0", ""] {
        let ids = names(&["x-y-1", bad, "x-y-3"]);
        assert_eq!(
            doc.remote_to_local_version_js(&ids, Some(false)),
            Err(VersionNotFound(bad.to_string()))
        );
        assert_eq!(doc.remote_to_local_version_js(&ids, Some(true)), Ok(vec![1, 3]));
    }
    // A plus sign and leading zeros are read as a number.
    let odd = names(&["x-y-+1", "x-y-003"]);
    assert_eq!(doc.remote_to_local_version_js(&odd, None), Ok(vec![1, 3]));
    assert_eq!(doc.get_agent_seq_runs(), vec![("x-y".to_string(), 0, 4)]);
}

#[test]
fn updates_as_peers_exchange_them() {
    let mut doc = Doc::new(Some("a"));
    doc.ins(0, "héllo");
    doc.apply_remote_op_js(&remote("b", 0, &["a-4"], 1, 2, None)).unwrap();
    doc.apply_remote_op_js(&remote("b", 2, &["b-1", "a-4"], 0, 0, Some("^"))).unwrap();
    let all = doc.get_updates_js(None).unwrap();
    assert_eq!(all.len(), 3);
    assert_eq!(all[0].version, names(&["a-4"]));
    assert_eq!(all[0].first_event, "a-0");
    assert_eq!(all[0].parents, names(&[]));
    assert_eq!(all[0].patches, vec![RangePatch {
        unit: "text",
        range: "[0:0]".to_string(),
        content: "héllo".to_string(),
    }]);
    assert_eq!(all[1].version, names(&["b-1"]));
    assert_eq!(all[1].first_event, "b-0");
    assert_eq!(all[1].parents, names(&["a-4"]));
    assert_eq!(all[1].patches[0].range, "[1:3]");
    assert_eq!(all[1].patches[0].content, "");
    assert_eq!(all[2].version, names(&["b-2"]));
    assert_eq!(all[2].first_event, "b-2");

    let some = doc.get_updates_js(Some(&names(&["b-0"]))).unwrap();
    assert_eq!(some.len(), 2);
    assert_eq!(some[0].version, names(&["b-1"]));
    assert_eq!(some[0].first_event, "b-1");
    assert_eq!(some[0].parents, names(&["b-0"]));
    assert_eq!(some[0].patches[0].range, "[1:2]");

    assert_eq!(
        doc.get_updates_js(Some(&names(&["b-9"]))),
        Err(VersionNotFound("b-9".to_string()))
    );
}

// The parents of an update stand in dictionary order, whichever was heard of first.
#[test]
fn parents_stand_in_order() {
    let mut doc = Doc::new(None);
    doc.apply_remote_ops_js(&[
        remote("b", 0, &[], 0, 0, Some("b")),
        remote("ab", 0, &[], 0, 0, Some("c")),
        remote("a", 0, &[], 0, 0, Some("a")),
        remote("c", 0, &["a-0", "b-0", "ab-0"], 0, 0, Some("!")),
    ]).unwrap();
    let all = doc.get_updates_js(None).unwrap();
    assert_eq!(all[3].parents, names(&["a-0", "ab-0", "b-0"]));
}

// Adjacent spans give what one span over both gives, split at the seam.
#[test]
fn spans_tile() {
    let mut doc = Doc::new(Some("a"));
    doc.ins(0, "abcdef");
    let whole = doc.get_updates_in_span(0, 6);
    assert_eq!(whole.len(), 1);
    let left = doc.get_updates_in_span(0, 2);
    let right = doc.get_updates_in_span(2, 6);
    assert_eq!((left.len(), right.len()), (1, 1));
    assert_eq!(left[0].patches[0].content, "ab");
    assert_eq!(left[0].version, names(&["a-1"]));
    assert_eq!(right[0].patches[0].content, "cdef");
    assert_eq!(right[0].parents, names(&["a-1"]));
    assert_eq!(right[0].patches[0].range, "[2:2]");
    assert!(doc.get_updates_in_span(3, 3).is_empty());
}

#[test]
fn transformed_operations() {
    let mut log = OpLog::new(Some("a"));
    let base = log.add_insert(0, "abc", None);
    assert_eq!(base, 2);
    let front = log.add_insert(0, "XY", Some(&[base]));
    log.set_agent("b");
    let cut = log.add_delete(1, 2, Some(&[base]));
    assert_eq!(log.get_local_frontier(), vec![front, cut]);

    let xf = log.get_xf_since(&[front]);
    assert_eq!(xf, vec![XfOp {
        agent: "b".to_string(),
        kind: "Del",
        start: 3,
        end: 5,
        fwd: true,
        content: String::new(),
    }]);
    let all = log.get_xf();
    assert_eq!(all[0].content, "abc");
    assert_eq!(all[0].kind, "Ins");
    let mut text: Vec<char> = Vec::new();
    for op in &all {
        match op.kind {
            "Ins" => {
                let at = op.start;
                for (k, c) in op.content.chars().enumerate() {
                    text.insert(at + k, c);
                }
            },
            _ => {
                text.drain(op.start..op.end);
            },
        }
    }
    assert_eq!(text.iter().collect::<String>(), "XYa");
    assert_eq!(log.checkout().get(), "XYa");
}

// The same travel, to somewhere other than the newest version.
#[test]
fn between_two_versions() {
    let mut doc = Doc::new(Some("a"));
    doc.ins(0, "abc");
    doc.ins(3, "def");
    let part = doc.xf_between(&[2], &[4]);
    assert_eq!(part.len(), 1);
    assert_eq!((part[0].start, part[0].end), (3, 5));
    assert_eq!(part[0].content, "de");
    assert_eq!(doc.xf_since(&[5]), vec![]);
    // On the way back, what came in between is taken out.
    let back = doc.xf_between(&[4], &[2]);
    assert_eq!(back.len(), 1);
    assert_eq!((back[0].kind, back[0].start, back[0].end), ("Del", 3, 5));
    assert_eq!((back[0].agent.as_str(), back[0].content.as_str()), ("a", ""));
    // What was deleted in between is put back.
    doc.del(1, 4);
    let back = doc.xf_between(&doc.get_local_frontier(), &[5]);
    assert_eq!(back.len(), 1);
    assert_eq!((back[0].kind, back[0].start, back[0].end), ("Ins", 1, 5));
    assert_eq!(back[0].content, "bcde");
}

// Neither version has what the other one has.
#[test]
fn between_concurrent_versions() {
    let mut log = OpLog::new(Some("a"));
    log.add_insert(0, "x", Some(&[]));
    log.set_agent("b");
    log.add_insert(0, "y", Some(&[]));
    let ops = xf_between(&log.inner, &[0], &[1]);
    let told: Vec<_> = ops
        .iter()
        .map(|op| (op.agent.as_str(), op.kind, op.start, op.end, op.content.as_str()))
        .collect();
    assert_eq!(told, vec![("b", "Ins", 1, 2, "y"), ("a", "Del", 0, 1, "")]);
}

#[test]
fn patches_of_an_earlier_text() {
    let mut doc = Doc::new(Some("a"));
    doc.ins(0, "abcdef");
    let then = doc.get_local_frontier();
    doc.del(0, 1);
    doc.ins(2, "XY");
    // bcXYdef, as replacements in abcdef
    let patches = doc.get_xf_patches_js(&then);
    let said: Vec<(&str, &str)> =
        patches.iter().map(|p| (p.range.as_str(), p.content.as_str())).collect();
    assert_eq!(said, vec![("[0:1]", ""), ("[3:3]", "XY")]);
    assert!(patches.iter().all(|p| p.unit == "text"));
    assert!(doc.get_xf_patches_js(&doc.get_local_frontier()).is_empty());
}

#[test]
fn relative_patches_as_texts() {
    let patch = |range: &str, content: &str| TextPatch {
        range: range.to_string(),
        content: content.to_string(),
    };
    let out = Doc::relative_to_absolute_patches_js(&[patch("[0:0]", "ab"), patch("[5:6]", "")]).unwrap();
    let said: Vec<(&str, &str)> =
        out.iter().map(|p| (p.range.as_str(), p.content.as_str())).collect();
    assert_eq!(said, vec![("[0:0]", "ab"), ("[3:4]", "")]);

    // Whatever stands between the digits is passed over.
    let loose = Doc::relative_to_absolute_patches_js(&[patch("from 2 to 4 (or 9)", "z")]).unwrap();
    assert_eq!(loose[0].range, "[2:4]");

    for bad in ["", "[3]", "none", "12"] {
        assert_eq!(
            Doc::relative_to_absolute_patches_js(&[patch("[0:0]", "a"), patch(bad, "b")]),
            Err(BadRange(bad.to_string()))
        );
    }
}

#[test]
fn branches() {
    let mut log = OpLog::new(Some("a"));
    log.add_insert(0, "one", None);
    log.add_insert(3, " two", None);
    let mut branch = Branch::new();
    assert_eq!(branch.get(), "");
    branch.merge(&log, Some(&[2]));
    assert_eq!(branch.get(), "one");
    assert_eq!(branch.get_local_frontier(), vec![2]);
    branch.merge(&log, None);
    assert_eq!(branch.get(), "one two");
    assert_eq!(branch.get_local_frontier(), vec![6]);
    // What is merged already is not merged again.
    branch.merge(&log, Some(&[4]));
    assert_eq!(branch.get(), "one two");
    assert_eq!(branch.get_local_frontier(), vec![6]);
    assert_eq!(Branch::all(&log).get(), "one two");
}

#[test]
fn copies_do_not_share() {
    let mut log = OpLog::new(Some("a"));
    log.add_insert(0, "abc", None);
    let mut copy = log.js_clone();
    assert_eq!(copy.to_bytes(), log.to_bytes());
    copy.add_delete(0, 1, None);
    assert_eq!(copy.checkout().get(), "bc");
    assert_eq!(log.checkout().get(), "abc");
    assert_eq!(copy.get_agent_seq_runs(), vec![("a".to_string(), 0, 4)]);
    assert!(OpLog::new(None).js_clone().agent_id.is_none());
}

#[test]
fn what_a_log_holds() {
    let mut log = OpLog::new(Some("a"));
    log.add_insert(0, "ab", None);
    log.add_insert(2, "cd", None);
    log.add_delete(1, 1, Some(&[1]));
    let ops = log.get_ops();
    assert_eq!(ops.len(), 2);
    assert_eq!((ops[0].start(), ops[0].end(), ops[0].content_as_str()), (0, 4, Some("abcd")));
    assert_eq!((ops[1].start(), ops[1].end(), ops[1].content_as_str()), (1, 2, None));
    let since = log.get_ops_since(&[1]);
    assert_eq!(since.len(), 2);
    assert_eq!(since[0].content_as_str(), Some("cd"));

    let history = log.get_history();
    assert_eq!(history.len(), 2);
    assert_eq!((history[0].span.start, history[0].span.end), (0, 4));
    assert!(history[0].parents.is_root());
    assert_eq!((history[1].span.start, history[1].span.end), (4, 5));
    assert_eq!(history[1].parents.as_ref(), &[1]);

    assert_eq!(log.merge_versions(&[3], &[4]), vec![3, 4]);
    assert_eq!(log.merge_versions(&[3], &[1]), vec![3]);
    assert_eq!(log.merge_versions(&[], &[]), vec![]);
    let tip = log.get_remote_version();
    assert_eq!(tip.iter().map(|v| (v.0, v.1)).collect::<Vec<_>>(), vec![("a", 3), ("a", 4)]);
}

#[test]
fn positions_in_sixteen_bit_units() {
    let mut doc = Doc::new(Some("a"));
    doc.ins(0, "a\u{1F600}é\u{10000}z");
    assert_eq!(doc.len(), 5);
    let wide = [0, 1, 3, 4, 6, 7];
    for (k, w) in wide.iter().enumerate() {
        assert_eq!(doc.chars_to_wchars(k), *w);
        assert_eq!(doc.wchars_to_chars(*w), k);
    }
    let mut log = OpLog::new(Some("a"));
    log.add_insert(0, "\u{1F600}!", None);
    let branch = log.checkout();
    assert_eq!(branch.chars_to_wchars(1), 2);
    assert_eq!(branch.wchars_to_chars(3), 2);
    assert!(branch.0.content().is_wchar_boundary(2));
    assert!(!branch.0.content().is_wchar_boundary(1));
    assert!(!branch.0.content().is_wchar_boundary(4));
}

#[test]
fn bytes_at_a_version() {
    let mut doc = Doc::new(Some("a"));
    doc.ins(0, "hello");
    doc.del(1, 3);
    doc.ins(2, "!");
    for lv in 0..doc.num_local_versions() {
        let there = Doc::from_bytes(&doc.to_bytes_at(&[lv]), None).unwrap();
        assert_eq!(there.get(), doc.get_string_at(&[lv]));
        assert_eq!(there.num_local_versions(), lv + 1);
        // Together with what has happened since, it is the whole.
        let mut whole = there;
        whole.merge_bytes(&doc.get_patch_since(&[lv])).unwrap();
        assert_eq!(whole.get(), doc.get());
        assert_eq!(whole.to_bytes(), doc.to_bytes());
    }
    assert_eq!(doc.to_bytes_at(&doc.get_local_frontier()), doc.to_bytes());
}

#[test]
fn bytes_that_cannot_be_taken_up() {
    let mut doc = Doc::new(Some("a"));
    doc.ins(0, "abc");
    let patch = doc.get_patch_since(&[1]);
    let mut other = OpLog::new(None);
    assert_eq!(other.add_from_bytes(&patch), Err(ParseError::BaseVersionUnknown));
    assert_eq!(other.add_from_bytes(&[]), Err(ParseError::Malformed));
    let mut cut = doc.to_bytes();
    cut.pop();
    assert_eq!(other.add_from_bytes(&cut), Err(ParseError::Malformed));
    let mut more = doc.to_bytes();
    more.push(0);
    assert_eq!(other.add_from_bytes(&more), Err(ParseError::Malformed));
    // A refusal leaves the log as it was.
    assert!(other.inner.is_empty());
    assert!(OpLog::from_bytes(&doc.to_bytes(), Some("b")).is_ok());
    assert_eq!(OpLog::from_bytes(&cut, Some("b")).err(), Some(ParseError::Malformed));
    other.add_from_bytes(&doc.to_bytes()).unwrap();
    assert_eq!(other.checkout().get(), "abc");
}

// A log that came as bytes keeps counting where its author stopped.
#[test]
fn an_author_comes_back() {
    let mut doc = Doc::new(Some("a"));
    doc.ins(0, "abc");
    let mut back = Doc::from_bytes(&doc.to_bytes(), Some("a")).unwrap();
    back.ins(3, "d");
    assert_eq!(back.get_agent_seq_runs(), vec![("a".to_string(), 0, 4)]);
    assert_eq!(back.get(), "abcd");
}

// What a peer says in updates another one takes up as edits, and reads the same.
#[test]
fn updates_sent_as_edits() {
    let mut a = Doc::new(Some("ann"));
    a.ins(0, "some text");
    a.del(4, 2);
    let mut b = Doc::from_bytes(&a.to_bytes(), Some("bob")).unwrap();
    a.ins(4, " more ");
    b.ins(0, "And ");
    b.del(8, 2);
    a.merge_bytes(&b.to_bytes()).unwrap();
    a.ins(0, "(");
    a.ins(a.len(), ")");

    let mut there = Doc::new(None);
    for since in [None, Some(vec!["ann-3".to_string()])] {
        let ops: Vec<RemoteOp> = a.get_updates_js(since.as_deref()).unwrap().iter().map(|u| {
            let (agent, seq) = u.first_event.rsplit_once('-').unwrap();
            let patch = &u.patches[0];
            let range = parse_range(&patch.range).unwrap();
            RemoteOp {
                agent: agent.to_string(),
                seq: seq.parse().unwrap(),
                parents: u.parents.clone(),
                pos: range.start,
                del: range.len(),
                ins: Some(patch.content.clone()),
            }
        }).collect();
        assert!(there.inner.can_apply(&ops));
        there.apply_remote_ops_js(&ops).unwrap();
        assert_eq!(there.get(), a.get());
        assert_eq!(there.num_local_versions(), a.num_local_versions());
    }
}

// What can be asked before it is done.
#[test]
fn asking_first() {
    let mut doc = Doc::new(Some("a"));
    doc.ins(0, "abc");
    let log = &doc.inner.oplog;
    assert!(log.knows(&[0, 2]));
    assert!(log.knows(&[]));
    assert!(!log.knows(&[0, 3]));
    assert!(log.has_room(0, 5));
    assert!(!log.has_room(0, usize::MAX - 2));
    assert!(log.cg.agent_assignment.has_room(10));
    assert!(log.cg.agent_assignment.has_room_for("someone else"));
    assert!(!log.cg.agent_assignment.has_room(u32::MAX as usize));
    assert!(can_name("someone"));
    assert!(!can_name("ROOT"));
    assert!(can_name(&"x".repeat(49)));
    assert!(!can_name(&"x".repeat(50)));
    assert!(!can_name(&"é".repeat(25)));

    let op = |pos, del| remote("b", 0, &["a-2"], pos, del, Some("x"));
    assert!(doc.inner.can_apply(&[op(3, 0)]));
    assert!(!doc.inner.can_apply(&[op(4, 0)]));
    assert!(doc.inner.can_apply(&[op(1, 2)]));
    assert!(!doc.inner.can_apply(&[op(2, 2)]));
    assert!(!doc.inner.can_apply(&[op(usize::MAX, 0)]));
    assert!(!doc.inner.can_apply(&[remote("ROOT", 0, &[], 0, 0, Some("x"))]));
    // Edits behind one that cannot be placed are not looked at.
    assert!(doc.inner.can_apply(&[remote("b", 0, &["c-0"], 0, 0, Some("x")), op(9, 0)]));

    let mut wild = OpLog::new(Some("w"));
    wild.add_insert(7, "out of place", None);
    assert!(!doc.inner.can_merge(&wild.to_bytes()));
    assert!(doc.inner.can_merge(&doc.to_bytes()));
    assert!(doc.inner.can_merge(&[1, 2, 3]));

    let patch = |range: &str| TextPatch { range: range.to_string(), content: String::new() };
    assert!(can_read(&[patch("[0:1]"), patch("none")]));
    assert!(!can_read(&[patch("[0:99999999999999999999999]")]));
    assert!(can_read(&[patch("none"), patch("[0:99999999999999999999999]")]));
}

// Edits that continue each other are kept as one run, also where they arrive as bytes.
#[test]
fn runs_of_what_arrives() {
    let mut doc = Doc::new(None);
    doc.apply_remote_ops_js(&[
        remote("a", 0, &[], 0, 0, Some("ab")),
        remote("a", 2, &["a-1"], 2, 0, Some("cd")),
        remote("a", 4, &["a-3"], 1, 2, None),
        remote("b", 0, &["a-5"], 0, 1, None),
    ])
    .unwrap();
    assert_eq!(doc.get(), "d");
    let read = Doc::from_bytes(&doc.to_bytes(), Some("me")).unwrap();
    assert_eq!(read.get(), "d");
    for d in [&doc, &read] {
        let ops = d.inner.oplog.iter_ops();
        assert_eq!(ops.len(), 2);
        assert_eq!((ops[0].start(), ops[0].end()), (0, 4));
        assert_eq!(ops[0].content_as_str(), Some("abcd"));
        // The second author's delete goes on where the first one's ended.
        assert_eq!((ops[1].start(), ops[1].end(), ops[1].loc.fwd), (0, 3, false));
        assert_eq!(d.inner.oplog.get_agent_name(0), "a");
        assert_eq!(d.inner.oplog.get_agent_name(1), "b");
    }
    // Whoever opens the document comes behind those that it names.
    assert_eq!(read.inner.oplog.get_agent_name(2), "me");
    assert_eq!(read.agent_id, Some(2));
}

// The newest version is taken up also where the text stays as it was.
#[test]
fn typed_and_taken_out_again() {
    let mut doc = Doc::new(Some("a"));
    doc.apply_remote_ops_js(&[
        remote("b", 0, &[], 0, 0, Some("xy")),
        remote("b", 2, &["b-1"], 0, 2, None),
    ])
    .unwrap();
    assert_eq!(doc.get(), "");
    assert_eq!(doc.get_local_frontier(), vec![3]);
    assert_eq!(doc.get_remote_version()[0].0, "b");
    let read = Doc::from_bytes(&doc.to_bytes(), None).unwrap();
    assert_eq!(read.get_local_frontier(), vec![3]);
    let mut other = Doc::new(None);
    other.merge_bytes(&doc.to_bytes()).unwrap();
    assert_eq!(other.get_local_frontier(), vec![3]);
}

#[test]
fn edits_that_do_nothing() {
    let mut doc = Doc::new(Some("a"));
    doc.ins(0, "");
    doc.del(0, 0);
    assert_eq!(doc.num_local_versions(), 0);
    doc.ins(0, "ab");
    doc.del(2, 0);
    doc.ins(1, "");
    assert_eq!(doc.get(), "ab");
    assert_eq!(doc.get_local_frontier(), vec![1]);
}

// What an edit follows is looked at before its author's name is.
#[test]
fn unknown_parents_of_a_bad_author() {
    let mut doc = Doc::new(Some("a"));
    let bad = remote("ROOT", 0, &["c-0"], 0, 0, Some("x"));
    assert!(doc.inner.can_apply(std::slice::from_ref(&bad)));
    assert_eq!(doc.apply_remote_op_js(&bad), Err(VersionNotFound("c-0".to_string())));
    let bad = remote("ROOT", 0, &[], 0, 0, Some("x"));
    assert!(!doc.inner.can_apply(std::slice::from_ref(&bad)));
    assert_eq!(doc.known_seq_span_js("a", 1, 0), None);
    doc.ins(0, "abc");
    assert_eq!(doc.known_seq_span_js("a", 2, 1), None);
    assert_eq!(doc.known_seq_span_js("a", 2, 0), None);
    assert_eq!(doc.known_seq_span_js("a", 2, 2), Some((0, 2)));
}
