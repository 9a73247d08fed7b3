use textlog::patches::Replacement;
use textlog::relative_to_absolute::run;
use textlog::segments::HUGE;
use textlog::treap_store::TreapStore;
use textlog::vec_store::VecStore;

fn convert_both(patches: &[Replacement]) -> Vec<Replacement> {
    let vec_out = run(&mut VecStore::new(), patches);
    let mut treap = TreapStore::new();
    let treap_out = run(&mut treap, patches);
    assert!(treap.dbg_check());
    assert_eq!(vec_out, treap_out, "stores disagree on {patches:?}");
    treap_out
}

fn r(s: usize, e: usize, c: &str) -> Replacement { Replacement::new(s, e, c) }

#[test]
fn matches_the_js_receipts() {
    assert_eq!(convert_both(&[r(5,5,"x"), r(6,6,"y")]),
               vec![r(5,5,"xy")]);
    assert_eq!(convert_both(&[r(5,5,"abc"), r(6,7,"")]),
               vec![r(5,5,"ac")]);
    assert_eq!(convert_both(&[r(2,2,"x"), r(9,9,"y")]),
               vec![r(2,2,"x"), r(8,8,"y")]);
    assert_eq!(convert_both(&[r(3,6,""), r(3,3,"new")]),
               vec![r(3,6,"new")]);
    // An insert that is deleted again leaves a replacement of nothing by nothing
    assert_eq!(convert_both(&[r(5,5,"abc"), r(5,8,"")]),
               vec![r(5,5,"")]);
}

// The self-oracle: applying the absolute output to a base text must
// equal applying the relative inputs step by step
fn apply_relative(base: &str, patches: &[Replacement]) -> String {
    let mut text: Vec<char> = base.chars().collect();
    for p in patches {
        let insert: Vec<char> = p.content.to_string().chars().collect();
        text.splice(p.range.start..p.range.end, insert);
    }
    text.into_iter().collect()
}

fn apply_absolute(base: &str, patches: &[Replacement]) -> String {
    let mut text: Vec<char> = base.chars().collect();
    let mut offset: isize = 0;
    for p in patches {
        let s = (p.range.start as isize + offset) as usize;
        let e = (p.range.end as isize + offset) as usize;
        let insert: Vec<char> = p.content.to_string().chars().collect();
        offset += insert.len() as isize - (e - s) as isize;
        text.splice(s..e, insert);
    }
    text.into_iter().collect()
}

#[test]
fn fuzz_apply_equivalence_quick() {
    fuzz_apply_equivalence(0..2000);
}

fn fuzz_apply_equivalence(seeds: std::ops::Range<u64>) {
    let alphabet: Vec<char> = "abYZ é✓𐍈\u{1F600}".chars()
        .filter(|c| *c != ' ').collect();
    for seed in seeds {
        let mut rng = seed.wrapping_mul(0x9E3779B97F4A7C15).wrapping_add(7);
        let mut rand = move |n: usize| -> usize {
            rng ^= rng << 13; rng ^= rng >> 7; rng ^= rng << 17;
            if n == 0 { 0 } else { (rng as usize) % n }
        };

        let base: String = (0..rand(24)).map(|_|
            alphabet[rand(alphabet.len())]).collect();
        let base_len = base.chars().count();

        let mut cur_len = base_len;
        let mut patches = Vec::new();
        for _ in 0..rand(10) {
            let s = rand(cur_len + 1);
            let d = rand((cur_len - s).min(5) + 1);
            let content: String = (0..rand(5)).map(|_|
                alphabet[rand(alphabet.len())]).collect();
            cur_len = cur_len - d + content.chars().count();
            patches.push(Replacement::new(s, s + d, &content));
        }

        let absolute = convert_both(&patches);
        assert_eq!(apply_relative(&base, &patches),
                   apply_absolute(&base, &absolute),
                   "seed {seed}: patches {patches:?} -> {absolute:?}");

        // Output invariants: ascending, non-overlapping, within base
        let mut last_end = 0;
        for p in &absolute {
            assert!(p.range.start >= last_end, "seed {seed}: out of order");
            assert!(p.range.end <= base_len + 5 + HUGE / 2, "sane range");
            last_end = p.range.end;
        }
    }
}
