use text_utils::data::loading::{BatchLimitType, TextIterationStrategy};
use text_utils::data::{
    check_sources, keep_ok, language_of, max_groups, prepare, until_error, window_items, Batch,
    DataLoader, InferenceData, InferenceDataFileFormat, InferenceItem, InferenceLoader,
    InferencePipeline, Item, ItemSize, Label, LabelArray, LabelError, LabelKey, LoadError,
    Pipeline, PreprocessingPipelineConfig, TextData, TextDataPipeline, TokenGroup, Tokenization, TokenizationInfo, Transform,
    Window,
};
use text_utils::error::{ConfigError, ContractError, ErrorKind, ParseError};

fn tokens_of(text: &str) -> Vec<u32> {
    text.bytes().map(|b| b as u32).collect()
}

fn tokenize(text: &String, _language: &Option<String>) -> Tokenization {
    Tokenization::new(tokens_of(text), TokenizationInfo::Empty)
}

fn record(text: &str) -> TextData {
    TextData::new(text.to_string(), None, None)
}

fn read(text: &str) -> Result<TextData, String> {
    Ok(record(text))
}

fn classify(data: TextData, _idx: usize, _seed: Option<u64>) -> Result<Item, String> {
    if data.original.contains("bad") {
        return Err(format!("cannot preprocess {}", data.original));
    }
    let tokenization = tokenize(&data.processed, &data.language);
    let label = Label::Classification(data.processed.len() as i32);
    Ok(Item::new(data, tokenization, label))
}

fn loader(
    strategy: TextIterationStrategy,
    batch_limit: usize,
    skip: usize,
    limit: Option<usize>,
    distributed: Option<(usize, usize)>,
) -> DataLoader {
    DataLoader::new(
        vec![],
        None,
        strategy,
        4,
        128,
        batch_limit,
        BatchLimitType::BatchSize,
        false,
        4,
        false,
        None,
        skip,
        limit,
        distributed,
    )
    .unwrap()
}

fn seq_item(tokens: usize, labels: Vec<i32>, info: TokenizationInfo) -> Item {
    Item::new(
        record("x"),
        Tokenization::new((0..tokens as u32).collect(), info),
        Label::SeqClassification(labels),
    )
}

#[test]
fn text_data_defaults_processed_to_original() {
    let data = TextData::new("a text".to_string(), None, Some("en".to_string()));
    assert_eq!(data.original, "a text");
    assert_eq!(data.processed, "a text");
    assert_eq!(data.language.as_deref(), Some("en"));
    let data = TextData::new("a text".to_string(), Some("a".to_string()), None);
    assert_eq!(data.processed, "a");
    assert_eq!(data.language, None);
}

#[test]
fn inference_line_with_detections_and_language() {
    let data = InferenceData::from_str(
        " some text \t1 0 1\t de \n",
        &InferenceDataFileFormat::TextPlusDetectionsPlusLanguage,
    )
    .unwrap();
    assert_eq!(data.original, "some text");
    assert_eq!(data.detections, Some(vec![true, false, true]));
    assert_eq!(data.language.as_deref(), Some("de"));
}

#[test]
fn inference_line_with_wrong_field_count() {
    let r = InferenceData::from_str("a\tb\tc", &InferenceDataFileFormat::TextPlusLanguage);
    assert_eq!(r, Err(ParseError::FieldCount { expected: 2, found: 3 }));
}

#[test]
fn inference_line_with_bad_detection() {
    let r = InferenceData::from_str("a\t1 x 0", &InferenceDataFileFormat::TextPlusDetections);
    assert_eq!(r, Err(ParseError::Detection { position: 1 }));
    let r = InferenceData::from_str("a\t1  0", &InferenceDataFileFormat::TextPlusDetections);
    assert_eq!(r, Err(ParseError::Detection { position: 1 }));
    let r = InferenceData::from_str("a\t256", &InferenceDataFileFormat::TextPlusDetections);
    assert_eq!(r, Err(ParseError::Detection { position: 0 }));
    let r = InferenceData::from_str("a\t+7 000", &InferenceDataFileFormat::TextPlusDetections);
    assert_eq!(r.unwrap().detections, Some(vec![true, false]));
}

#[test]
fn inference_line_of_plain_text_keeps_its_tabs() {
    let data = InferenceData::from_str("  a\tb  ", &InferenceDataFileFormat::Text).unwrap();
    assert_eq!(data.original, "a\tb");
    assert_eq!(data.detections, None);
    assert_eq!(data.language, None);
    let data = InferenceData::from_str("", &InferenceDataFileFormat::Text).unwrap();
    assert_eq!(data.original, "");
}

#[test]
fn inference_line_with_language() {
    let data =
        InferenceData::from_str("text\t en ", &InferenceDataFileFormat::TextPlusLanguage).unwrap();
    assert_eq!(data, InferenceData::new("text".to_string(), None, Some("en".to_string())));
    let r = InferenceData::from_str("text", &InferenceDataFileFormat::TextPlusLanguage);
    assert_eq!(r, Err(ParseError::FieldCount { expected: 2, found: 1 }));
    let r = InferenceData::from_str("a\tb", &InferenceDataFileFormat::TextPlusDetectionsPlusLanguage);
    assert_eq!(r, Err(ParseError::FieldCount { expected: 3, found: 2 }));
    // an empty detections field holds one empty entry
    let r = InferenceData::from_str("a\t", &InferenceDataFileFormat::TextPlusDetections);
    assert_eq!(r, Err(ParseError::Detection { position: 0 }));
    let r = InferenceData::from_str("a\t-1", &InferenceDataFileFormat::TextPlusDetections);
    assert_eq!(r, Err(ParseError::Detection { position: 0 }));
    let r = InferenceData::from_str("a\t255 +", &InferenceDataFileFormat::TextPlusDetections);
    assert_eq!(r, Err(ParseError::Detection { position: 1 }));
}

#[test]
fn file_formats_by_name() {
    assert_eq!(InferenceDataFileFormat::from_name("text"), Some(InferenceDataFileFormat::Text));
    assert_eq!(
        InferenceDataFileFormat::from_name("text_detections"),
        Some(InferenceDataFileFormat::TextPlusDetections)
    );
    assert_eq!(
        InferenceDataFileFormat::from_name("text_language"),
        Some(InferenceDataFileFormat::TextPlusLanguage)
    );
    assert_eq!(
        InferenceDataFileFormat::from_name("text_detections_language"),
        Some(InferenceDataFileFormat::TextPlusDetectionsPlusLanguage)
    );
    assert_eq!(InferenceDataFileFormat::from_name("texts"), None);
}

#[test]
fn labels_from_their_parts() {
    assert_eq!(
        Label::from_parts(Some("classification"), Some(3), None),
        Ok(Label::Classification(3))
    );
    assert_eq!(
        Label::from_parts(Some("sequence_classification"), None, Some(vec![1, 2])),
        Ok(Label::SeqClassification(vec![1, 2]))
    );
    assert_eq!(
        Label::from_parts(Some("seq2seq"), Some(1), Some(vec![4])),
        Ok(Label::Seq2Seq(vec![4]))
    );
    assert_eq!(
        Label::from_parts(None, Some(3), None),
        Err(LabelError::RequiredKey(LabelKey::Type))
    );
    assert_eq!(
        Label::from_parts(Some("classification"), None, Some(vec![1])),
        Err(LabelError::RequiredKey(LabelKey::Label))
    );
    assert_eq!(
        Label::from_parts(Some("seq2seq"), Some(1), None),
        Err(LabelError::RequiredKey(LabelKey::Labels))
    );
    assert_eq!(
        Label::from_parts(Some("sequence_classification"), Some(1), None),
        Err(LabelError::RequiredKey(LabelKey::Labels))
    );
    assert_eq!(Label::from_parts(Some("regression"), Some(1), None), Err(LabelError::InvalidType));
    assert_eq!(Label::Classification(1).variant_name(), "classification");
    assert_eq!(Label::SeqClassification(vec![]).variant_name(), "sequence_classification");
    assert_eq!(Label::Seq2Seq(vec![]).variant_name(), "seq2seq");
}

#[test]
fn group_counts_by_name() {
    let groups = |name: &str, n: usize| TokenGroup { name: name.to_string(), groups: vec![1; n] };
    let tokens: Vec<u32> = vec![0; 9];
    let plain = Tokenization::new(tokens.clone(), TokenizationInfo::Empty);
    assert_eq!(plain.num_groups(), 9);
    let bytes = Tokenization::new(
        tokens.clone(),
        TokenizationInfo::TokenGroups(vec![groups("other", 2), groups("byte_groups", 5)]),
    );
    assert_eq!(bytes.num_groups(), 5);
    let both = Tokenization::new(
        tokens.clone(),
        TokenizationInfo::TokenGroups(vec![groups("byte_groups", 5), groups("code_point_groups", 4)]),
    );
    assert_eq!(both.num_groups(), 4);
    assert_eq!(both.info.group_len("byte_groups"), Some(5));
    assert_eq!(both.info.group_len("none"), None);
    let other = Tokenization::new(
        tokens,
        TokenizationInfo::TokenGroups(vec![groups("other", 2)]),
    );
    assert_eq!(other.num_groups(), 9);
    assert_eq!(max_groups(&vec![&plain, &bytes, &both]), 9);
    assert_eq!(max_groups(&vec![&bytes, &both]), 5);
    assert_eq!(max_groups(&vec![]), 0);
}

#[test]
fn token_ids_are_padded_to_the_longest() {
    let a = Tokenization::new(vec![1, 2, 3], TokenizationInfo::Empty);
    let b = Tokenization::new(vec![], TokenizationInfo::Empty);
    let c = Tokenization::new(vec![4], TokenizationInfo::Empty);
    let out = prepare(vec![&a, &b, &c], 9);
    assert_eq!(out.token_ids.rows, 3);
    assert_eq!(out.token_ids.cols, 3);
    assert_eq!(out.token_ids.data, vec![1, 2, 3, 9, 9, 9, 4, 9, 9]);
    assert_eq!(out.lengths, vec![3, 0, 1]);
    let out = prepare(vec![], 9);
    assert_eq!((out.token_ids.rows, out.token_ids.cols), (0, 0));
    assert!(out.token_ids.data.is_empty());
    assert!(out.lengths.is_empty());
}

#[test]
fn classification_batch_is_tensorized() {
    let batch = Batch::new(vec![
        classify(record("hello"), 0, None).unwrap(),
        classify(record("hi"), 1, None).unwrap(),
    ]);
    let out = batch.tensorize(0, 1);
    assert_eq!((out.token_ids.rows, out.token_ids.cols), (2, 5));
    assert_eq!(out.lengths, vec![5, 2]);
    assert_eq!(out.labels, LabelArray::Classes(vec![5, 2]));
    for (i, item) in batch.items.iter().enumerate() {
        let row = &out.token_ids.data[i * 5..(i + 1) * 5];
        assert_eq!(&row[..out.lengths[i]], &item.tokenization.token_ids[..]);
        assert!(row[out.lengths[i]..].iter().all(|t| *t == 0));
        assert_eq!(item.size(), out.lengths[i]);
    }
    assert_eq!(batch.len(), 2);
}

#[test]
fn sequence_labels_are_laid_out_behind_the_prefix() {
    let batch = Batch::new(vec![
        seq_item(4, vec![7, 8], TokenizationInfo::Empty),
        seq_item(6, vec![1, 2, 3, 4], TokenizationInfo::Empty),
        seq_item(2, vec![], TokenizationInfo::Empty),
    ]);
    let out = batch.try_tensorize(99, 2).unwrap();
    match out.labels {
        LabelArray::Groups(grid) => {
            assert_eq!((grid.rows, grid.cols), (3, 6));
            assert_eq!(
                grid.data,
                vec![-1, -1, 7, 8, -1, -1, -1, -1, 1, 2, 3, 4, -1, -1, -1, -1, -1, -1]
            );
        }
        LabelArray::Classes(_) => panic!("sequence labels give a grid"),
    }
    assert_eq!(out.token_ids.cols, 6);
}

#[test]
fn label_width_follows_the_token_groups() {
    let info = || {
        TokenizationInfo::TokenGroups(vec![TokenGroup {
            name: "code_point_groups".to_string(),
            groups: vec![2, 1],
        }])
    };
    let batch = Batch::new(vec![seq_item(7, vec![5], info()), seq_item(3, vec![6, 7], info())]);
    let out = batch.tensorize(0, 0);
    match out.labels {
        LabelArray::Groups(grid) => {
            assert_eq!((grid.rows, grid.cols), (2, 2));
            assert_eq!(grid.data, vec![5, -1, 6, 7]);
        }
        LabelArray::Classes(_) => panic!("sequence labels give a grid"),
    }
    assert_eq!(out.token_ids.cols, 7);
}

#[test]
fn contract_violations_of_a_batch() {
    let class = || classify(record("ab"), 0, None).unwrap();
    let seq = |n: usize| seq_item(3, vec![0; n], TokenizationInfo::Empty);
    let seq2seq = || Item::new(record("x"), tokenize(&"x".to_string(), &None), Label::Seq2Seq(vec![1]));
    assert_eq!(Batch::<Item>::new(vec![]).contract_violation(0), Some(ContractError::EmptyBatch));
    assert_eq!(Batch::new(vec![class(), class()]).contract_violation(0), None);
    assert_eq!(
        Batch::new(vec![class(), seq(1)]).contract_violation(0),
        Some(ContractError::MixedLabels { index: 1 })
    );
    assert_eq!(
        Batch::new(vec![seq(1), seq(2), class()]).contract_violation(0),
        Some(ContractError::MixedLabels { index: 2 })
    );
    assert_eq!(
        Batch::new(vec![class(), seq2seq()]).contract_violation(0),
        Some(ContractError::UnsupportedLabel { index: 1 })
    );
    assert_eq!(
        Batch::new(vec![seq2seq()]).try_tensorize(0, 0).unwrap_err(),
        ContractError::UnsupportedLabel { index: 0 }
    );
    assert_eq!(Batch::new(vec![seq(3), seq(1)]).contract_violation(0), None);
    assert_eq!(
        Batch::new(vec![seq(1), seq(3)]).contract_violation(1),
        Some(ContractError::LabelTooLong { index: 1 })
    );
    assert_eq!(
        Batch::new(vec![seq(1)]).contract_violation(usize::MAX),
        Some(ContractError::LabelTooLong { index: 0 })
    );
}

#[test]
fn inference_batch_is_padded() {
    let item = |text: &str, k: usize| {
        InferenceItem::new(
            InferenceData::new(text.to_string(), None, None),
            tokenize(&text.to_string(), &None),
            0,
            k,
            (0, 0, text.len(), text.len()),
        )
    };
    let batch = Batch::new(vec![item("ab", 0), item("abcd", 1)]);
    let out = batch.tensorize(0);
    assert_eq!((out.token_ids.rows, out.token_ids.cols), (2, 4));
    assert_eq!(out.token_ids.data, vec![97, 98, 0, 0, 97, 98, 99, 100]);
    assert_eq!(out.lengths, vec![2, 4]);
    assert_eq!(batch.items[1].size(), 4);
    assert_eq!(batch.into_items().len(), 2);
}

#[test]
fn two_sources_in_sequence_make_two_batches() {
    let mut loader = loader(TextIterationStrategy::Sequential, 2, 0, None, None);
    let sources = vec![vec![read("hi"), read("hello")], vec![read("x")]];
    let batches = loader.load(sources, &Pipeline::new(classify), 0, 0).unwrap();
    assert_eq!(batches.len(), 2);
    let ids: Vec<Vec<Vec<u32>>> = batches
        .iter()
        .map(|b| b.batch.items.iter().map(|i| i.tokenization.token_ids.clone()).collect())
        .collect();
    assert_eq!(ids, vec![vec![tokens_of("hi"), tokens_of("hello")], vec![tokens_of("x")]]);
    assert_eq!(
        batches[0].tensorized.token_ids.data,
        vec![104, 105, 0, 0, 0, 104, 101, 108, 108, 111]
    );
    assert_eq!(batches[0].tensorized.lengths, vec![2, 5]);
    assert_eq!(batches[1].tensorized.token_ids.data, tokens_of("x"));
    assert_eq!((batches[0].len(), batches[1].len()), (2, 1));
    assert_eq!(loader.min_items(), Some(3));
}

#[test]
fn one_rank_of_two_reads_its_share() {
    let lines = || vec![(0..10).map(|k| read(&format!("line {k}"))).collect::<Vec<_>>()];
    let originals = |skip: usize, limit: usize| {
        let mut loader =
            loader(TextIterationStrategy::Sequential, 16, skip, Some(limit), Some((1, 2)));
        let batches = loader.load(lines(), &Pipeline::new(classify), 0, 0).unwrap();
        let found: Vec<String> = batches
            .into_iter()
            .flat_map(|b| b.batch.into_items())
            .map(|i| i.data.original)
            .collect();
        (found, loader.min_items())
    };
    // the limit counts from the start of the stream: of the lines 3, 4, 5 rank 1 reads line 4
    assert_eq!(originals(3, 6), (vec!["line 4".to_string()], Some(1)));
    assert_eq!(
        originals(3, 9).0,
        vec!["line 4".to_string(), "line 6".to_string(), "line 8".to_string()]
    );
}

#[test]
fn failing_records_are_dropped() {
    let mut loader = loader(TextIterationStrategy::Sequential, 16, 0, None, None);
    let sources =
        vec![vec![read("one"), read("two"), read("a bad line"), read("four"), read("five")]];
    let batches = loader.load(sources, &Pipeline::new(classify), 0, 0).unwrap();
    let found: Vec<&str> =
        batches[0].batch.items.iter().map(|i| i.data.original.as_str()).collect();
    assert_eq!(found, vec!["one", "two", "four", "five"]);
    assert_eq!(batches.len(), 1);
}

#[test]
fn loader_without_a_batch_reports_the_last_failure() {
    let mut loader = loader(TextIterationStrategy::Sequential, 16, 0, None, None);
    let sources = vec![vec![read("bad 1"), read("bad 2"), Err("unreadable".to_string())]];
    let out = loader.load(sources, &Pipeline::new(classify), 0, 0);
    assert_eq!(out.unwrap_err(), LoadError::Record("cannot preprocess bad 2".to_string()));
    let sources = vec![vec![Err("unreadable 1".to_string()), Err("unreadable 2".to_string())]];
    let out = loader.load(sources, &Pipeline::new(classify), 0, 0);
    assert_eq!(out.unwrap_err(), LoadError::Record("unreadable 2".to_string()));
    let out = loader.load(vec![vec![]], &Pipeline::new(classify), 0, 0);
    assert!(out.unwrap().is_empty());
    let out = loader.load(vec![], &Pipeline::new(classify), 0, 0);
    assert_eq!(out.unwrap_err(), LoadError::Config(ConfigError::NoSources));
}

#[test]
fn loader_stops_at_a_batch_that_cannot_be_tensorized() {
    let mixed = |data: TextData, idx: usize, _seed: Option<u64>| -> Result<Item, String> {
        let tokenization = tokenize(&data.processed, &data.language);
        let label = if idx == 1 {
            Label::SeqClassification(vec![1])
        } else {
            Label::Classification(0)
        };
        Ok(Item::new(data, tokenization, label))
    };
    let mut loader = loader(TextIterationStrategy::Sequential, 2, 0, None, None);
    let sources = vec![vec![read("a"), read("b"), read("c")]];
    let out = loader.load(sources, &Pipeline::new(mixed), 0, 0);
    assert_eq!(out.unwrap_err(), LoadError::Contract(ContractError::MixedLabels { index: 1 }));
}

#[test]
fn weighted_loader_needs_a_weight_for_every_source() {
    let mut loader = loader(TextIterationStrategy::Weighted(vec![1, 2]), 2, 0, None, None);
    let out = loader.load(vec![vec![read("a")]], &Pipeline::new(classify), 0, 0);
    assert_eq!(out.unwrap_err(), LoadError::Config(ConfigError::Weights));
    let out = loader.load(vec![vec![read("a")], vec![read("b")]], &Pipeline::new(classify), 0, 0);
    assert_eq!(out.unwrap().len(), 1);
}

#[test]
fn shuffled_epochs_are_repeatable() {
    let run = |epoch: usize| {
        let mut loader = DataLoader::new(
            vec![],
            None,
            TextIterationStrategy::Sequential,
            1,
            8,
            2,
            BatchLimitType::BatchSize,
            true,
            8,
            true,
            Some(7),
            0,
            None,
            None,
        )
        .unwrap();
        loader.set_epoch(epoch);
        assert_eq!(loader.seed_of_epoch(), Some(7 + epoch as u64));
        let sources = vec![(0..32).map(|k| read(&"x".repeat(k + 1))).collect::<Vec<_>>()];
        let batches = loader.load(sources, &Pipeline::new(classify), 0, 0).unwrap();
        batches
            .into_iter()
            .map(|b| {
                (
                    b.batch.items.iter().map(|i| i.size()).collect::<Vec<_>>(),
                    b.tensorized.token_ids.data,
                )
            })
            .collect::<Vec<_>>()
    };
    let first = run(0);
    assert_eq!(first, run(0));
    let other = run(1);
    assert_ne!(first, other);
    let mut a = first.clone();
    let mut b = other.clone();
    a.sort();
    b.sort();
    assert_eq!(a, b);
    assert_eq!(a.len(), 16);
}

#[test]
fn loader_settings_are_checked() {
    let make = |threads: u8, limit: usize, shuffle: bool, sort: bool, seed: Option<u64>, distributed| {
        DataLoader::from_files(
            vec!["a.txt".to_string()],
            Some(vec!["en".to_string()]),
            TextIterationStrategy::Interleaved,
            threads,
            8,
            limit,
            BatchLimitType::TokenCount,
            shuffle,
            0,
            sort,
            seed,
            0,
            None,
            distributed,
        )
        .map(|_| ())
    };
    assert_eq!(make(4, 16, false, false, None, None), Ok(()));
    assert_eq!(make(4, 16, true, true, Some(1), Some((1, 2))), Ok(()));
    assert_eq!(make(4, 16, true, false, None, None), Err(ConfigError::ShuffleWithoutSeed));
    assert_eq!(make(4, 16, false, true, Some(1), None), Err(ConfigError::SortWithoutShuffle));
    assert_eq!(make(4, 0, false, false, None, None), Err(ConfigError::ZeroBatchLimit));
    assert_eq!(make(0, 16, false, false, None, None), Err(ConfigError::WorkerCount { workers: 0 }));
    assert_eq!(make(65, 16, false, false, None, None), Err(ConfigError::WorkerCount { workers: 65 }));
    assert_eq!(
        make(4, 16, false, false, None, Some((2, 2))),
        Err(ConfigError::InvalidRank { rank: 2, world_size: 2 })
    );
    assert_eq!(
        make(4, 16, false, false, None, Some((0, 0))),
        Err(ConfigError::InvalidRank { rank: 0, world_size: 0 })
    );
}

#[test]
fn sources_and_languages_are_checked() {
    let en = || Some(vec!["en".to_string(), "de".to_string()]);
    assert_eq!(check_sources(0, &None), Some(ConfigError::NoSources));
    assert_eq!(check_sources(0, &en()), Some(ConfigError::NoSources));
    assert_eq!(check_sources(2, &en()), None);
    assert_eq!(check_sources(2, &None), None);
    assert_eq!(
        check_sources(3, &en()),
        Some(ConfigError::LanguageCount { sources: 3, languages: 2 })
    );
    assert_eq!(language_of(&en(), 1), Some("de".to_string()));
    assert_eq!(language_of(&None, 1), None);
    let no_files = DataLoader::from_files(
        vec![],
        None,
        TextIterationStrategy::Sequential,
        0,
        8,
        0,
        BatchLimitType::BatchSize,
        false,
        1,
        false,
        None,
        0,
        None,
        None,
    );
    assert!(matches!(no_files, Err(ConfigError::NoSources)));
}

#[test]
fn epoch_plan_of_a_loader() {
    let mut loader =
        loader(TextIterationStrategy::Sequential, 8, 5, Some(100), Some((1, 4)));
    loader.set_fast_forward(3);
    loader.set_epoch(2);
    let plan = loader.init_iter(50);
    assert_eq!(plan.seed, None);
    assert_eq!(
        (plan.shard.limit, plan.shard.skip, plan.shard.fast_forward, plan.shard.rank, plan.shard.world_size),
        (100, 5, 3, 1, 4)
    );
    assert_eq!(plan.batcher.limit(), 8);
    assert_eq!(plan.batcher.prefetch_factor(), 4);
    // (min(50, 100) - 5) / 4
    assert_eq!(loader.min_items(), Some(11));
    assert_eq!(loader.num_threads(), 4);
    assert_eq!(loader.buffer_size(), 128);
}

#[test]
fn results_without_their_errors() {
    let results: Vec<Result<u8, &str>> = vec![Ok(1), Err("a"), Ok(2), Err("b"), Ok(3)];
    assert_eq!(keep_ok(results.clone()), (vec![1, 2, 3], Some("b")));
    assert_eq!(until_error(results), (vec![1], Some("a")));
    let fine: Vec<Result<u8, &str>> = vec![Ok(1), Ok(2)];
    assert_eq!(keep_ok(fine.clone()), (vec![1, 2], None));
    assert_eq!(until_error(fine), (vec![1, 2], None));
}

#[test]
fn training_pipeline_preprocesses_tokenizes_and_labels() {
    let preprocess = |data: TextData, seed: Option<u64>| -> Result<TextData, String> {
        if data.original.is_empty() {
            Err("empty".to_string())
        } else {
            let processed = format!("{}{}", data.original.trim(), seed.unwrap_or(0));
            Ok(TextData::new(data.original, Some(processed), data.language))
        }
    };
    let label = |data: &TextData| -> Result<Label, String> {
        if data.processed.starts_with('?') {
            Err("no label".to_string())
        } else {
            Ok(Label::Classification(data.processed.len() as i32))
        }
    };
    let pipeline = TextDataPipeline::with_tokenizer(preprocess, tokenize, label);
    let item = pipeline.apply(record(" ab "), 0, Some(7)).unwrap();
    assert_eq!(item.data.original, " ab ");
    assert_eq!(item.data.processed, "ab7");
    assert_eq!(item.tokenization.token_ids, tokens_of("ab7"));
    assert_eq!(item.label, Label::Classification(3));
    assert_eq!(pipeline.apply(record(""), 0, None).unwrap_err(), "empty");
    assert_eq!(pipeline.apply(record("?"), 0, None).unwrap_err(), "no label");
}

#[test]
fn windows_become_inference_items() {
    let clean = |data: InferenceData| {
        InferenceData::new(data.original.trim().to_string(), data.detections, data.language)
    };
    let windows = |data: &InferenceData| -> Result<Vec<Window>, String> {
        if data.original.len() < 6 {
            return Err(format!("too short: {}", data.original));
        }
        Ok(vec![
            Window { text: data.original[0..3].to_string(), bounds: (0, 0, 3, 3) },
            Window { text: data.original[3..6].to_string(), bounds: (0, 3, 6, 6) },
        ])
    };
    let pipeline = InferencePipeline::with_windows(clean, windows, tokenize);
    let data = InferenceData::new(" abcdef ".to_string(), None, Some("en".to_string()));
    let items = pipeline.apply(data, 0, None).unwrap();
    assert_eq!(items.len(), 2);
    for (k, item) in items.iter().enumerate() {
        assert_eq!(item.item_idx, 0);
        assert_eq!(item.window_idx, k);
        assert_eq!(item.data.original, "abcdef");
        assert_eq!(item.data.language.as_deref(), Some("en"));
    }
    assert_eq!(items[0].window, (0, 0, 3, 3));
    assert_eq!(items[1].window, (0, 3, 6, 6));
    assert_eq!(items[0].tokenization.token_ids, tokens_of("abc"));
    assert_eq!(items[1].tokenization.token_ids, tokens_of("def"));

    let loader = InferenceLoader::new(vec![2, 1], 2, 8, 3, BatchLimitType::BatchSize, 0, false).unwrap();
    assert_eq!(loader.min_items(), 3);
    assert_eq!(loader.splits(), vec![2, 1]);
    assert_eq!(loader.num_threads(), 2);
    assert_eq!(loader.buffer_size(), 8);
    assert_eq!(loader.batcher().prefetch_factor(), 1);
    let line = |text: &str| -> Result<InferenceData, String> {
        Ok(InferenceData::new(text.to_string(), None, None))
    };
    let run = loader.run(
        vec![vec![line("abcdef"), line("ghijkl")], vec![line("mnopqr")]],
        &pipeline,
        0,
    );
    assert!(run.error.is_none());
    let found: Vec<Vec<(usize, usize)>> = run
        .batches
        .iter()
        .map(|b| b.batch.items.iter().map(|i| (i.item_idx, i.window_idx)).collect())
        .collect();
    assert_eq!(found, vec![vec![(0, 0), (0, 1), (1, 0)], vec![(1, 1), (2, 0), (2, 1)]]);
    assert_eq!(run.batches[0].tensorized.token_ids.data, tokens_of("abcdefghi"));

    // the first failure ends the loading; what lies in front of it is batched
    let run = loader.run(
        vec![vec![line("abcdef"), line("x")], vec![line("mnopqr"), line("y")]],
        &pipeline,
        0,
    );
    assert_eq!(run.error, Some("too short: x".to_string()));
    assert_eq!(run.batches.len(), 1);
    assert_eq!(run.batches[0].len(), 2);

    // a record that cannot be read ends the loading as well
    let run = loader.run(
        vec![vec![line("abcdef"), Err("unreadable".to_string()), line("x")]],
        &pipeline,
        0,
    );
    assert_eq!(run.error, Some("unreadable".to_string()));
    assert_eq!(run.batches.len(), 1);
    let run = loader.run(
        vec![vec![line("x"), Err("unreadable".to_string())]],
        &pipeline,
        0,
    );
    assert_eq!(run.error, Some("too short: x".to_string()));
    assert!(run.batches.is_empty());

    let data = InferenceData::new("abcdef".to_string(), None, None);
    let items = window_items(
        &data,
        5,
        &vec![Window { text: "abc".to_string(), bounds: (1, 2, 3, 4) }],
        &tokenize,
    );
    assert_eq!((items[0].item_idx, items[0].window_idx, items[0].window), (5, 0, (1, 2, 3, 4)));
}

#[test]
fn inference_loader_settings_are_checked() {
    let size = BatchLimitType::BatchSize;
    assert!(matches!(
        InferenceLoader::new(vec![], 1, 8, 4, size, 1, false),
        Err(ConfigError::NoSources)
    ));
    assert!(matches!(
        InferenceLoader::new(vec![1], 1, 8, 4, size, 1, true),
        Err(ConfigError::SortWithoutShuffle)
    ));
    assert!(matches!(
        InferenceLoader::new(vec![1], 1, 8, 0, size, 1, false),
        Err(ConfigError::ZeroBatchLimit)
    ));
    assert!(matches!(
        InferenceLoader::new(vec![1], 0, 8, 4, size, 1, false),
        Err(ConfigError::WorkerCount { workers: 0 })
    ));
    let files = vec!["a".to_string(), "b".to_string()];
    assert!(matches!(
        InferenceLoader::from_files(&files, &Some(vec!["en".to_string()]), vec![1, 2], 1, 8, 4, size, 1, false),
        Err(ConfigError::LanguageCount { sources: 2, languages: 1 })
    ));
    let loader =
        InferenceLoader::from_files(&files, &None, vec![usize::MAX, 2], 1, 8, 4, size, 1, false).unwrap();
    assert_eq!(loader.min_items(), usize::MAX);
    let loader = InferenceLoader::from_iterator(5, 1, 8, 4, size, 1, false).unwrap();
    assert_eq!((loader.min_items(), loader.splits()), (5, vec![5]));
    let config = PreprocessingPipelineConfig::new(vec!["clean", "noise"], "whitespace");
    assert_eq!((config.preprocessing.len(), config.labeling), (2, "whitespace"));
}

#[test]
fn error_kinds_of_single_records() {
    for kind in [
        ErrorKind::SourceRead,
        ErrorKind::Parse,
        ErrorKind::Preprocess,
        ErrorKind::Label,
        ErrorKind::Tokenize,
    ] {
        assert!(kind.is_per_record());
    }
    for kind in [ErrorKind::Window, ErrorKind::Config, ErrorKind::Contract] {
        assert!(!kind.is_per_record());
    }
}

#[test]
fn groupings_are_set_by_name() {
    let info = TokenizationInfo::Empty
        .with_group("byte_groups".to_string(), vec![1, 1, 2])
        .with_group("code_point_groups".to_string(), vec![2, 2])
        .with_group("byte_groups".to_string(), vec![4]);
    assert_eq!(info.group_len("byte_groups"), Some(1));
    assert_eq!(info.group_len("code_point_groups"), Some(2));
    assert_eq!(info.group_len("other"), None);
    match &info {
        TokenizationInfo::TokenGroups(groups) => assert_eq!(groups.len(), 2),
        TokenizationInfo::Empty => panic!("groupings were set"),
    }
    assert_eq!(Tokenization::new(vec![1, 2, 3], info).num_groups(), 2);
}

#[test]
fn unreadable_records_keep_their_place_in_the_stream() {
    // the failure at place 1 is read by rank 1, so rank 1 yields the lines 3 and 5 only
    let sources = || {
        vec![(0..6)
            .map(|k| if k == 1 { Err("unreadable".to_string()) } else { read(&format!("line {k}")) })
            .collect::<Vec<_>>()]
    };
    let found = |rank: usize| {
        let mut loader = loader(TextIterationStrategy::Sequential, 16, 0, None, Some((rank, 2)));
        let batches = loader.load(sources(), &Pipeline::new(classify), 0, 0).unwrap();
        batches
            .into_iter()
            .flat_map(|b| b.batch.into_items())
            .map(|i| i.data.original)
            .collect::<Vec<_>>()
    };
    assert_eq!(found(0), vec!["line 0", "line 2", "line 4"]);
    assert_eq!(found(1), vec!["line 3", "line 5"]);
}
