use gpu_gates::prompts::{
    compare_forced, compare_greedy, read_greedy, read_prompts, ForcedPos, GreedyClass, GreedyRow,
    RowError, TableError, FORCED_BUCKETS,
};

fn bits(v: &[f32]) -> Vec<u32> {
    v.iter().map(|x| x.to_bits()).collect()
}

/// A well-formed reference row: `gen_ids[0]` doubles as `argmax`.
fn row(id: usize, gen_ids: &[u32], gen_margins: &[f32]) -> GreedyRow {
    GreedyRow {
        id,
        n_tokens: 4,
        argmax: gen_ids[0],
        top5: vec![gen_ids[0], 7, 9, 11, 13],
        gen_ids: gen_ids.to_vec(),
        gen_margins: bits(gen_margins),
    }
}

/// Classification looks only at the first difference and its reference margin:
/// no difference is Identical, a first difference inside the floor is NearTie,
/// outside it Diverged, and a wilder difference later never upgrades the class.
#[test]
fn compare_greedy_classifies_the_first_difference_only() {
    let floor = 0.5f32.to_bits();
    let reference = vec![
        row(0, &[10, 11, 12], &[2.0, 1.5, 0.9]),
        // first diff at 1, ref margin 0.2 < floor
        row(1, &[20, 21, 22], &[2.0, 0.2, 0.05]),
        // first diff at 0, ref margin 2.0 >= floor
        row(2, &[30, 31, 32], &[2.0, 0.2, 0.05]),
    ];
    let ours = vec![vec![10, 11, 12], vec![20, 99, 22], vec![77, 31, 32]];
    let r = compare_greedy(&ours, &reference, floor);
    assert_eq!(r.rows[0].class, GreedyClass::Identical);
    assert_eq!(r.rows[0].first_diff, None);
    assert_eq!(r.rows[0].ref_margin, None);
    assert_eq!(r.rows[1].class, GreedyClass::NearTie);
    assert_eq!(r.rows[1].first_diff, Some(1));
    assert_eq!(r.rows[1].ref_margin, Some(0.2f32.to_bits()));
    assert_eq!(r.rows[2].class, GreedyClass::Diverged);
    assert_eq!(r.rows[2].first_diff, Some(0));
    assert_eq!(r.rows[2].ref_margin, Some(2.0f32.to_bits()));
    assert_eq!((r.n_identical, r.n_near_tie, r.n_diverged), (1, 1, 1));
}

/// A reference row that stopped on EOS is shorter; it is judged over its own
/// length, and the stop itself is not a difference. Both lengths ride along.
#[test]
fn compare_greedy_judges_a_short_eos_row_over_its_own_length() {
    let floor = 0.5f32.to_bits();
    let reference = vec![row(5, &[10, 11, 100_001], &[1.0, 0.8, 3.0])];
    let r = compare_greedy(&[vec![10, 11, 100_001]], &reference, floor);
    assert_eq!(r.rows[0].class, GreedyClass::Identical);
    assert_eq!((r.rows[0].n_ours, r.rows[0].n_ref), (3, 3));

    let r = compare_greedy(&[vec![10, 11, 100_001, 40, 41]], &reference, floor);
    assert_eq!(r.rows[0].class, GreedyClass::Identical);
    assert_eq!((r.rows[0].n_ours, r.rows[0].n_ref), (5, 3));
}

/// The teacher-forced ruler counts every disagreeing position, not the first one
/// per row. Bucket edges are checked on the edge itself: a margin of exactly 0.1,
/// 0.5 or 1.0 falls in the upper bucket, and the floor is `>=`, not `>`.
#[test]
fn compare_forced_counts_every_position_not_only_the_first() {
    let floor = 0.5f32.to_bits();
    let reference = vec![
        row(0, &[10, 11, 12], &[2.0, 1.5, 0.9]),
        row(1, &[20, 21, 22], &[2.0, 0.2, 0.05]),
        row(2, &[30, 31, 32], &[1.0, 0.5, 0.1]),
    ];
    let ours = vec![vec![10, 11, 12], vec![20, 99, 98], vec![77, 88, 99]];
    let f = compare_forced(&ours, &reference, floor);
    assert_eq!(f.positions, 9);
    assert_eq!(f.disagree.len(), 5);
    // [0,0.1): 0.05. [0.1,0.5): 0.2 and 0.1. [0.5,1.0): 0.5. [1.0,inf): 1.0.
    assert_eq!(f.buckets, [1, 2, 1, 1]);
    assert_eq!(f.disagree_ge_floor, 2);
    assert_eq!(f.max_margin, Some(1.0f32.to_bits()));
    // The second row's later difference is a position of its own here; the
    // first-difference comparer never sees it.
    assert_eq!(
        f.disagree[1],
        ForcedPos {
            id: 1,
            step: 2,
            ours: 98,
            theirs: 22,
            ref_margin: 0.05f32.to_bits(),
        }
    );
    let g = compare_greedy(&ours, &reference, floor);
    assert_eq!((g.n_identical, g.n_near_tie, g.n_diverged), (1, 1, 1));
}

/// A row is compared over the shorter of the two lengths in either direction,
/// and a set with no disagreement carries no `max_margin`.
#[test]
fn compare_forced_spans_the_shorter_of_the_two_lengths() {
    let floor = 0.5f32.to_bits();
    let reference = vec![row(5, &[10, 11, 100_001], &[1.0, 0.8, 3.0])];

    let f = compare_forced(&[vec![10, 99, 100_001, 40, 41]], &reference, floor);
    assert_eq!(f.positions, 3);
    assert_eq!(f.buckets, [0, 0, 1, 0]);
    assert_eq!(f.disagree_ge_floor, 1);
    assert_eq!(f.max_margin, Some(0.8f32.to_bits()));

    let f = compare_forced(&[vec![10]], &reference, floor);
    assert_eq!(f.positions, 1);
    assert!(f.disagree.is_empty());
    assert_eq!(f.buckets, [0, 0, 0, 0]);
    assert_eq!(f.max_margin, None);
}

/// `read_greedy` parses only the 7-column format, and enforces the writer's
/// `gen_ids[0] == argmax` duplication.
#[test]
fn read_greedy_takes_only_the_gen_format() {
    let rows = read_greedy(
        "# argmax_ref\tik_llama.cpp\tmodel=x\tgen=3\n\
         #id\tn_tokens\targmax\ttop5_ids\ttop5_logits\tgen_ids\tgen_margins\n\
         0\t4\t10\t10,7,9,11,13\t2.0,1.0,0.5,0.2,0.1\t10,11,12\t2.0,1.5,0.9\n",
    )
    .unwrap();
    assert_eq!(rows.len(), 1);
    assert_eq!(rows[0].id, 0);
    assert_eq!(rows[0].n_tokens, 4);
    assert_eq!(rows[0].argmax, 10);
    assert_eq!(rows[0].top5, vec![10, 7, 9, 11, 13]);
    assert_eq!(rows[0].gen_ids, vec![10, 11, 12]);
    let margins: Vec<f32> = rows[0].margins.iter().map(|m| m.parse().unwrap()).collect();
    assert_eq!(margins, vec![2.0, 1.5, 0.9]);

    assert!(read_greedy("0\t4\t10\t10,7,9,11,13\t2.0,1.0,0.5,0.2,0.1\n").is_err());

    assert!(
        read_greedy("0\t4\t10\t10,7,9,11,13\t2.0,1.0,0.5,0.2,0.1\t11,11,12\t2.0,1.5,0.9\n")
            .is_err()
    );
}

/// Each refusal of a greedy table.
#[test]
fn a_greedy_table_is_refused_by_kind() {
    let bad = |s: &str| read_greedy(s).err();
    assert!(matches!(bad("# only a comment\n"), Some(TableError::NoRows)));
    assert!(matches!(
        bad("0\t4\t10\n"),
        Some(TableError::Row(_, RowError::Width))
    ));
    assert!(matches!(
        bad("x\t4\t10\t10,7,9,11,13\t2.0,1.0,0.5,0.2,0.1\t10,11,12\t2.0,1.5,0.9\n"),
        Some(TableError::Row(_, RowError::Field(0)))
    ));
    assert!(matches!(
        bad("0\t4\t10\t10,7,9,11\t2.0,1.0,0.5,0.2,0.1\t10,11,12\t2.0,1.5,0.9\n"),
        Some(TableError::Row(_, RowError::Top5))
    ));
    assert!(matches!(
        bad("0\t4\t10\t10,7,9,11,13\t2.0,1.0,0.5,0.2,0.1\t10,11,12\t2.0,1.5\n"),
        Some(TableError::Row(_, RowError::Lengths))
    ));
    assert!(matches!(
        bad("0\t4\t10\t10,7,9,11,13\t2.0,1.0,0.5,0.2,0.1\t11,11,12\t2.0,1.5,0.9\n"),
        Some(TableError::Row(_, RowError::Argmax))
    ));
}

/// A prompt table's rows, comments and blank lines left out.
#[test]
fn prompts_read_id_text_and_tokens() {
    let rows = read_prompts("# id\ttext\ttokens\n0\thello\t1,2,3\n\n7\ta b\t4\n").unwrap();
    assert_eq!(rows.len(), 2);
    assert_eq!((rows[0].id, rows[0].text.as_str()), (0, "hello"));
    assert_eq!(rows[0].tokens, [1, 2, 3]);
    assert_eq!((rows[1].id, rows[1].text.as_str()), (7, "a b"));
    assert!(read_prompts("0\thello\n").is_err());
    assert!(read_prompts("0\thello\t1,x\n").is_err());
    assert!(matches!(read_prompts("").err(), Some(TableError::NoRows)));
}

/// The bucket edges are 0.1, 0.5 and 1.0; every disagreement is in one bucket,
/// and a reference compared with itself disagrees nowhere.
#[test]
fn buckets_partition_and_the_reference_agrees_with_itself() {
    assert_eq!(
        FORCED_BUCKETS,
        [0.1f32.to_bits(), 0.5f32.to_bits(), 1.0f32.to_bits()]
    );
    let reference = vec![
        row(0, &[1, 2, 3, 4], &[0.0, 0.099, 0.1, 5.0]),
        row(1, &[5, 6], &[0.4999, 0.9999]),
    ];
    let wrong = vec![vec![9, 9, 9, 9], vec![9, 9]];
    let f = compare_forced(&wrong, &reference, 0.5f32.to_bits());
    assert_eq!(f.buckets, [2, 2, 1, 1]);
    assert_eq!(f.buckets.iter().sum::<usize>(), f.disagree.len());
    assert_eq!(f.max_margin, Some(5.0f32.to_bits()));
    let same: Vec<Vec<u32>> = reference.iter().map(|r| r.gen_ids.clone()).collect();
    let f = compare_forced(&same, &reference, 0.5f32.to_bits());
    assert!(f.disagree.is_empty());
    let g = compare_greedy(&same, &reference, 0.5f32.to_bits());
    assert_eq!((g.n_identical, g.n_near_tie, g.n_diverged), (2, 0, 0));
}
