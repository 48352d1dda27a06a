use text_utils::data::loading::{
    batched, default_workers, min_len, mix, pick_source, pipe, shuffle, sort_by_size,
    split_batches, BatchLimitType, BatcherConfig, PipelineStage, Rng, ShardPlan, TextIterator,
    TextIterationStrategy,
};
use text_utils::data::{Batch, Item, Label, Pipeline, TextData, Tokenization, TokenizationInfo};
use text_utils::error::ConfigError;

fn sized(size: usize, tag: i32) -> Item {
    Item::new(
        TextData::new(format!("item {tag}"), None, None),
        Tokenization::new(vec![0; size], TokenizationInfo::Empty),
        Label::Classification(tag),
    )
}

fn tags(batches: &Vec<Batch<Item>>) -> Vec<Vec<i32>> {
    batches
        .iter()
        .map(|b| {
            b.items
                .iter()
                .map(|i| match i.label {
                    Label::Classification(tag) => tag,
                    _ => unreachable!(),
                })
                .collect()
        })
        .collect()
}

fn sizes(batches: &Vec<Batch<Item>>) -> Vec<Vec<usize>> {
    batches
        .iter()
        .map(|b| b.items.iter().map(|i| i.tokenization.token_ids.len()).collect())
        .collect()
}

fn plan(limit: usize, skip: usize, fast_forward: usize, rank: usize, world_size: usize) -> ShardPlan {
    ShardPlan { limit, skip, fast_forward, rank, world_size }
}

#[test]
fn shard_reads_every_nth_item_before_the_limit() {
    let lines: Vec<usize> = (0..10).collect();
    // the limit counts from the start of the stream
    assert_eq!(plan(6, 3, 0, 1, 2).select(lines.clone()), vec![4]);
    assert_eq!(plan(6, 3, 0, 0, 2).select(lines.clone()), vec![3, 5]);
    assert_eq!(plan(9, 3, 0, 1, 2).select(lines.clone()), vec![4, 6, 8]);
    assert_eq!(plan(9, 3, 0, 0, 2).select(lines.clone()), vec![3, 5, 7]);
    assert_eq!(plan(usize::MAX, 0, 0, 0, 1).select(lines.clone()), lines);
    assert_eq!(plan(usize::MAX, 0, 2, 2, 3).select(lines.clone()), vec![4, 7]);
    assert_eq!(plan(usize::MAX, 10, 0, 0, 1).select(lines.clone()), vec![]);
    assert_eq!(plan(0, 0, 0, 0, 1).select(lines.clone()), vec![]);
    assert_eq!(plan(usize::MAX, usize::MAX, 1, 0, 1).select(lines.clone()), vec![]);
    assert_eq!(plan(20, 0, 0, 0, 1).select(Vec::<usize>::new()), vec![]);
}

#[test]
fn shards_interleave_to_the_stream() {
    let lines: Vec<usize> = (0..23).collect();
    for world_size in 1..6 {
        let shards: Vec<Vec<usize>> = (0..world_size)
            .map(|rank| plan(19, 2, 1, rank, world_size).select(lines.clone()))
            .collect();
        let mut merged = vec![];
        let mut k = 0;
        while shards.iter().any(|s| k < s.len()) {
            for s in &shards {
                if k < s.len() {
                    merged.push(s[k]);
                }
            }
            k += 1;
        }
        assert_eq!(merged, (3..19).collect::<Vec<usize>>());
    }
}

#[test]
fn skip_and_limit_against_dropping() {
    let lines: Vec<usize> = (0..10).collect();
    // nothing skipped, the stream ends before the limit, or both read nothing: the same
    for (a, b, n) in [(0, 4, 10), (3, 12, 10), (3, 10, 10), (7, 2, 7)] {
        let stream: Vec<usize> = lines[..n].to_vec();
        let first = plan(b, a, 0, 0, 1).select(stream.clone());
        let second: Vec<usize> =
            plan(a + b, 0, 0, 0, 1).select(stream).into_iter().skip(a).collect();
        assert_eq!(first, second);
    }
    // a longer stream is cut earlier
    let first = plan(6, 3, 0, 0, 1).select(lines.clone());
    let second: Vec<usize> = plan(9, 0, 0, 0, 1).select(lines.clone()).into_iter().skip(3).collect();
    assert_eq!(first, vec![3, 4, 5]);
    assert_eq!(second, vec![3, 4, 5, 6, 7, 8]);
}

#[test]
fn min_items_formula() {
    assert_eq!(plan(usize::MAX, 0, 0, 0, 1).min_items(10), 10);
    assert_eq!(plan(6, 3, 0, 1, 2).min_items(10), 1);
    assert_eq!(plan(8, 3, 0, 1, 2).min_items(10), 2);
    assert_eq!(plan(100, 3, 5, 0, 4).min_items(10), 1);
    assert_eq!(plan(100, 30, 0, 0, 4).min_items(10), 0);
}

#[test]
fn batches_by_size() {
    let items: Vec<Item> = (0..5).map(|t| sized(3, t)).collect();
    let batches = split_batches(items, BatchLimitType::BatchSize, 2);
    assert_eq!(tags(&batches), vec![vec![0, 1], vec![2, 3], vec![4]]);
    let batches = split_batches(Vec::<Item>::new(), BatchLimitType::BatchSize, 2);
    assert!(batches.is_empty());
    // a limit of zero still makes batches of one item
    let items: Vec<Item> = (0..2).map(|t| sized(3, t)).collect();
    let batches = split_batches(items, BatchLimitType::BatchSize, 0);
    assert_eq!(tags(&batches), vec![vec![0], vec![1]]);
}

#[test]
fn batches_by_token_count_of_sorted_items() {
    let items: Vec<Item> = [1, 5, 2, 4, 3].iter().map(|s| sized(*s, *s as i32)).collect();
    let sorted = sort_by_size(items);
    let batches = split_batches(sorted, BatchLimitType::TokenCount, 6);
    assert_eq!(sizes(&batches), vec![vec![1, 2], vec![3], vec![4], vec![5]]);
}

#[test]
fn batches_by_token_count_use_the_largest_item() {
    let items: Vec<Item> = [2, 2, 2, 7, 1, 1, 3].iter().map(|s| sized(*s, 0)).collect();
    let batches = split_batches(items, BatchLimitType::TokenCount, 6);
    // 2*3 fits; 7 alone exceeds the limit and stays alone; 3*3 exceeds it
    assert_eq!(sizes(&batches), vec![vec![2, 2, 2], vec![7], vec![1, 1], vec![3]]);
    for batch in &batches {
        let largest = batch.items.iter().map(|i| i.tokenization.token_ids.len()).max().unwrap();
        assert!(batch.len() == 1 || batch.len() * largest <= 6);
    }
}

#[test]
fn sorting_is_stable() {
    let items: Vec<Item> =
        [(2, 0), (1, 1), (2, 2), (1, 3), (0, 4)].iter().map(|(s, t)| sized(*s, *t)).collect();
    let sorted = sort_by_size(items);
    let order: Vec<i32> = tags(&vec![Batch::new(sorted)]).remove(0);
    assert_eq!(order, vec![4, 1, 3, 0, 2]);
}

#[test]
fn batcher_config_is_checked() {
    let size = BatchLimitType::BatchSize;
    assert_eq!(
        BatcherConfig::new(false, true, 1, 4, size, None),
        Err(ConfigError::ShuffleWithoutSeed)
    );
    assert_eq!(
        BatcherConfig::new(true, false, 1, 4, size, Some(1)),
        Err(ConfigError::SortWithoutShuffle)
    );
    assert_eq!(
        BatcherConfig::new(false, false, 1, 0, size, None),
        Err(ConfigError::ZeroBatchLimit)
    );
    assert_eq!(
        BatcherConfig::new(true, true, 1, 0, size, None),
        Err(ConfigError::ShuffleWithoutSeed)
    );
    let config = BatcherConfig::new(true, true, 0, 4, BatchLimitType::TokenCount, Some(9)).unwrap();
    assert!(config.sort());
    assert!(config.shuffle());
    assert_eq!(config.prefetch_factor(), 1);
    assert_eq!(config.limit(), 4);
    assert_eq!(config.limit_type(), BatchLimitType::TokenCount);
    assert_eq!(config.seed(), Some(9));
}

#[test]
fn batching_keeps_the_order_without_shuffling() {
    let config = BatcherConfig::new(false, false, 2, 3, BatchLimitType::BatchSize, None).unwrap();
    let items: Vec<Item> = (0..8).map(|t| sized(1, t)).collect();
    let batches = batched(items, &config);
    assert_eq!(tags(&batches), vec![vec![0, 1, 2], vec![3, 4, 5], vec![6, 7]]);
}

#[test]
fn prefetch_window_ends_a_batch() {
    // windows of 1 * 4 items: the batch of the first window is not filled up from the second
    let config = BatcherConfig::new(false, false, 1, 4, BatchLimitType::TokenCount, None).unwrap();
    let items: Vec<Item> = (0..6).map(|t| sized(1, t)).collect();
    let batches = batched(items, &config);
    assert_eq!(tags(&batches), vec![vec![0, 1, 2, 3], vec![4, 5]]);
}

#[test]
fn sorted_and_shuffled_batches_hold_the_same_items() {
    let config =
        BatcherConfig::new(true, true, 1, 6, BatchLimitType::TokenCount, Some(3)).unwrap();
    let items: Vec<Item> = [1, 5, 2, 4, 3].iter().map(|s| sized(*s, *s as i32)).collect();
    let batches = batched(items, &config);
    let mut found = sizes(&batches);
    found.sort();
    assert_eq!(found, vec![vec![1, 2], vec![3], vec![4], vec![5]]);
}

#[test]
fn shuffling_depends_on_the_seed_only() {
    let shuffled = |seed: u64| {
        let config =
            BatcherConfig::new(false, true, 4, 2, BatchLimitType::BatchSize, Some(seed)).unwrap();
        let items: Vec<Item> = (0..40).map(|t| sized(1, t)).collect();
        tags(&batched(items, &config))
    };
    let first = shuffled(7);
    assert_eq!(first, shuffled(7));
    let other = shuffled(8);
    assert_ne!(first, other);
    let mut a = first.clone();
    let mut b = other.clone();
    a.sort();
    b.sort();
    assert_eq!(a, b);
    assert_eq!(a, (0..20).map(|k| vec![2 * k, 2 * k + 1]).collect::<Vec<_>>());
}

#[test]
fn generator_yields_known_numbers() {
    let mut rng = Rng::new(0);
    assert_eq!(rng.next_u64(), 0xE220A8397B1DCDAF);
    assert_eq!(rng.next_u64(), 0x6E789E6AA1B965F4);
    assert_eq!(rng.next_u64(), 0x06C45D188009454F);
    let mut rng = Rng::new(0);
    assert_eq!(rng.below(1000), (0xE220A8397B1DCDAFu64 % 1000) as usize);
    assert_eq!(rng.state, 0x9E3779B97F4A7C15);
}

#[test]
fn shuffle_permutes() {
    let mut rng = Rng::new(42);
    let items: Vec<u32> = (0..100).collect();
    let mut mixed = shuffle(items.clone(), &mut rng);
    assert_ne!(mixed, items);
    mixed.sort();
    assert_eq!(mixed, items);
    let mut rng = Rng::new(42);
    assert_eq!(shuffle(Vec::<u32>::new(), &mut rng), vec![]);
    assert_eq!(rng.state, 42);
}

#[test]
fn sequential_and_interleaved_mixing() {
    let sources = || vec![vec!["a0", "a1"], vec!["b0"], vec![], vec!["d0", "d1", "d2"]];
    assert_eq!(
        mix(sources(), &TextIterationStrategy::Sequential, None),
        vec!["a0", "a1", "b0", "d0", "d1", "d2"]
    );
    assert_eq!(
        mix(sources(), &TextIterationStrategy::Interleaved, None),
        vec!["a0", "b0", "d0", "a1", "d1", "d2"]
    );
    assert_eq!(mix(Vec::<Vec<u8>>::new(), &TextIterationStrategy::Interleaved, None), vec![]);
}

#[test]
fn weighted_mixing_keeps_every_source_in_order() {
    let sources = || {
        vec![
            (0..50).map(|k| (0, k)).collect::<Vec<_>>(),
            (0..5).map(|k| (1, k)).collect(),
            (0..20).map(|k| (2, k)).collect(),
        ]
    };
    let strategy = TextIterationStrategy::Weighted(vec![5, 1, 2]);
    assert!(strategy.check(3));
    let mixed = mix(sources(), &strategy, Some(11));
    assert_eq!(mixed.len(), 75);
    for source in 0..3 {
        let own: Vec<(i32, i32)> = mixed.iter().filter(|i| i.0 == source).cloned().collect();
        assert_eq!(own, sources()[source as usize]);
    }
    assert_eq!(mixed, mix(sources(), &strategy, Some(11)));
    assert_ne!(mixed, mix(sources(), &strategy, Some(12)));
    assert_ne!(mixed, mix(sources(), &TextIterationStrategy::Sequential, None));
}

#[test]
fn weights_are_checked() {
    assert!(!TextIterationStrategy::Weighted(vec![1, 2]).check(3));
    assert!(!TextIterationStrategy::Weighted(vec![1, 0, 2]).check(3));
    assert!(!TextIterationStrategy::Weighted(vec![u64::MAX, 1]).check(2));
    assert!(TextIterationStrategy::Weighted(vec![u64::MAX - 1, 1]).check(2));
    assert!(TextIterationStrategy::Sequential.check(0));
    assert!(TextIterationStrategy::Interleaved.check(5));
}

#[test]
fn weights_pick_by_running_sum() {
    let weights = vec![3, 0, 2];
    let picked: Vec<usize> = (0..5).map(|t| pick_source(&weights, t)).collect();
    assert_eq!(picked, vec![0, 0, 0, 2, 2]);
}

#[test]
fn lower_bounds_of_the_strategies() {
    let lens = vec![10, 4, 7];
    assert_eq!(min_len(&lens, &TextIterationStrategy::Sequential), 21);
    assert_eq!(min_len(&lens, &TextIterationStrategy::Interleaved), 12);
    // shares: 10 * 6 / 3 = 20, 4 * 6 / 2 = 12, 7 * 6 / 1 = 42
    assert_eq!(min_len(&lens, &TextIterationStrategy::Weighted(vec![3, 2, 1])), 12);
    assert_eq!(min_len(&vec![usize::MAX, 1], &TextIterationStrategy::Sequential), usize::MAX);
    assert_eq!(min_len(&vec![usize::MAX, usize::MAX], &TextIterationStrategy::Interleaved), usize::MAX);
    assert_eq!(min_len(&vec![], &TextIterationStrategy::Sequential), 0);
    assert_eq!(min_len(&vec![], &TextIterationStrategy::Interleaved), 0);
}

#[test]
fn pipe_applies_in_order_with_index_and_seed() {
    let pipeline = Pipeline::new(|item: u32, idx: usize, seed: Option<u64>| {
        (item * 10, idx, seed.unwrap_or(0))
    });
    assert_eq!(
        pipe(vec![3, 1, 2], &pipeline, Some(5)),
        vec![(30, 0, 5), (10, 1, 5), (20, 2, 5)]
    );
    assert_eq!(pipeline.apply(4, 9, None), (40, 9, 0));
}

#[test]
fn stage_releases_in_the_order_of_the_indices() {
    let mut stage: PipelineStage<&str> = PipelineStage::new(2).unwrap();
    assert!(!stage.runs_inline());
    let handed: Vec<usize> = (0..8).map(|_| stage.dispatch().unwrap()).collect();
    assert_eq!(handed, (0..8).collect::<Vec<usize>>());
    // four items for each of the two workers are in flight
    assert_eq!(stage.dispatch(), None);
    stage.complete(2, "c");
    stage.complete(1, "b");
    assert_eq!(stage.release(), None);
    stage.complete(0, "a");
    assert_eq!(stage.release(), Some("a"));
    assert_eq!(stage.release(), Some("b"));
    assert_eq!(stage.release(), Some("c"));
    assert_eq!(stage.release(), None);
    assert_eq!(stage.dispatch(), Some(8));
}

#[test]
fn stage_workers_are_checked() {
    assert!(matches!(
        PipelineStage::<u8>::new(0),
        Err(ConfigError::WorkerCount { workers: 0 })
    ));
    assert!(matches!(
        PipelineStage::<u8>::new(65),
        Err(ConfigError::WorkerCount { workers: 65 })
    ));
    assert!(PipelineStage::<u8>::new(64).is_ok());
    assert!(PipelineStage::<u8>::new(1).unwrap().runs_inline());
    assert_eq!(default_workers(2), 2);
    assert_eq!(default_workers(16), 4);
}

#[test]
fn text_iterator_checks_and_mixes_its_sources() {
    let none = TextIterator::<u8>::new(vec![], TextIterationStrategy::Sequential, None);
    assert!(matches!(none, Err(ConfigError::NoSources)));
    let unfit =
        TextIterator::new(vec![vec![1], vec![2]], TextIterationStrategy::Weighted(vec![1]), Some(1));
    assert!(matches!(unfit, Err(ConfigError::Weights)));
    let sources = || vec![vec![1, 2, 3], vec![4], vec![5, 6]];
    let it = TextIterator::new(sources(), TextIterationStrategy::Interleaved, None).unwrap();
    // three sources times the smallest of them
    assert_eq!(it.min_len(), 3);
    assert_eq!(it.into_stream(), vec![1, 4, 5, 2, 6, 3]);
    let it = TextIterator::new(sources(), TextIterationStrategy::Sequential, None).unwrap();
    assert_eq!(it.min_len(), 6);
    assert_eq!(it.into_stream(), vec![1, 2, 3, 4, 5, 6]);
    let weighted = || {
        TextIterator::new(sources(), TextIterationStrategy::Weighted(vec![1, 1, 2]), Some(3)).unwrap()
    };
    // shares: 3 * 4 / 1, 1 * 4 / 1, 2 * 4 / 2
    assert_eq!(weighted().min_len(), 4);
    let mut stream = weighted().into_stream();
    assert_eq!(stream, weighted().into_stream());
    stream.sort();
    assert_eq!(stream, vec![1, 2, 3, 4, 5, 6]);
}
