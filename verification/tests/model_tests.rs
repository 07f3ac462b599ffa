use n_gram::{
    chosen_or_end, eos, rank, sos, tiny_corpus, tokenize, top_candidates, Config, Model, Tally,
    TrainError, DEFAULT_CONTEXT, DEFAULT_SAMPLING_DEN, DEFAULT_SAMPLING_NUM, DEFAULT_SMOOTHING,
};

fn toks(items: &[&str]) -> Vec<String> {
    items.iter().map(|w| w.to_string()).collect()
}

fn tallies(items: &[(&str, u32)]) -> Vec<Tally> {
    items.iter().map(|(token, count)| Tally { token: token.to_string(), count: *count }).collect()
}

fn cat_corpus() -> Vec<Vec<String>> {
    vec![toks(&["__sos__", "the", "cat", "sat", "__eos__"])]
}

fn bigram_model() -> Model {
    let mut model = Model::new(Config::new(1, true, 1, 1));
    assert_eq!(model.train(cat_corpus()), Ok(()));
    model
}

#[test]
fn default_config_has_the_default_values() {
    let config = Config::default();
    assert_eq!(config.context, 2);
    assert!(config.smoothing);
    assert_eq!(config.sampling_num, 4);
    assert_eq!(config.sampling_den, 5);
    assert_eq!(config.context, DEFAULT_CONTEXT);
    assert_eq!(config.smoothing, DEFAULT_SMOOTHING);
    assert_eq!(config.sampling_num, DEFAULT_SAMPLING_NUM);
    assert_eq!(config.sampling_den, DEFAULT_SAMPLING_DEN);
    assert!(config.is_valid());
}

#[test]
fn config_new_keeps_its_arguments() {
    let config = Config::new(3, false, 1, 5);
    assert_eq!(config.context, 3);
    assert!(!config.smoothing);
    assert_eq!(config.sampling_num, 1);
    assert_eq!(config.sampling_den, 5);
    assert!(config.is_valid());
}

#[test]
fn config_validity_is_checked() {
    assert!(!Config { context: 0, smoothing: true, sampling_num: 1, sampling_den: 2 }.is_valid());
    assert!(!Config { context: 1, smoothing: true, sampling_num: 0, sampling_den: 2 }.is_valid());
    assert!(!Config { context: 1, smoothing: true, sampling_num: 3, sampling_den: 2 }.is_valid());
    assert!(!Config { context: 1, smoothing: true, sampling_num: 0, sampling_den: 0 }.is_valid());
    assert!(
        !Config { context: usize::MAX, smoothing: true, sampling_num: 1, sampling_den: 1 }
            .is_valid()
    );
    assert!(Config { context: 1, smoothing: false, sampling_num: 2, sampling_den: 2 }.is_valid());
}

#[test]
fn new_model_is_empty() {
    let model = Model::new(Config::default());
    assert!(model.table().rows.is_empty());
    assert_eq!(model.configuration().context, 2);
}

#[test]
fn untrained_model_predicts_the_end_marker() {
    let model = Model::new(Config::default());
    for _ in 0..20 {
        assert_eq!(model.predict(toks(&["The", "quick", "brown"])), "__eos__");
        assert_eq!(model.predict(Vec::new()), "__eos__");
    }
}

#[test]
fn untrained_model_resolves_nothing() {
    let model = Model::new(Config::default());
    assert!(model.get(toks(&["a", "b"])).is_none());
    assert!(model.candidates(toks(&["a", "b"])).is_empty());
}

#[test]
fn training_counts_every_bigram_once() {
    let model = bigram_model();
    assert_eq!(model.count(&toks(&["__sos__"]), &"the".to_string()), 1);
    assert_eq!(model.count(&toks(&["the"]), &"cat".to_string()), 1);
    assert_eq!(model.count(&toks(&["cat"]), &"sat".to_string()), 1);
    assert_eq!(model.count(&toks(&["sat"]), &"__eos__".to_string()), 1);
    assert_eq!(model.count(&toks(&["the"]), &"sat".to_string()), 0);
    assert_eq!(model.count(&toks(&["__eos__"]), &"the".to_string()), 0);
    assert_eq!(model.table().rows.len(), 4);
}

#[test]
fn training_stores_rows_in_order_of_first_sighting() {
    let mut model = Model::new(Config::new(1, true, 1, 1));
    assert_eq!(model.train(vec![toks(&["a", "b", "a", "c", "a", "b"])]), Ok(()));
    let rows = &model.table().rows;
    assert_eq!(rows.len(), 3);
    assert_eq!(rows[0].context, toks(&["a"]));
    assert_eq!(rows[0].tallies.len(), 2);
    assert_eq!(rows[0].tallies[0].token, "b");
    assert_eq!(rows[0].tallies[0].count, 2);
    assert_eq!(rows[0].tallies[1].token, "c");
    assert_eq!(rows[0].tallies[1].count, 1);
    assert_eq!(rows[1].context, toks(&["b"]));
    assert_eq!(rows[1].tallies[0].token, "a");
    assert_eq!(rows[1].tallies[0].count, 1);
    assert_eq!(rows[2].context, toks(&["c"]));
    assert_eq!(rows[2].tallies[0].token, "a");
    assert_eq!(rows[2].tallies[0].count, 1);
}

#[test]
fn training_with_trigrams_stores_contexts_of_two_tokens() {
    let mut model = Model::new(Config::default());
    assert_eq!(model.train(vec![toks(&["a", "b", "c", "d"])]), Ok(()));
    let rows = &model.table().rows;
    assert_eq!(rows.len(), 2);
    assert_eq!(rows[0].context, toks(&["a", "b"]));
    assert_eq!(rows[1].context, toks(&["b", "c"]));
    assert_eq!(model.count(&toks(&["a", "b"]), &"c".to_string()), 1);
    assert_eq!(model.count(&toks(&["b", "c"]), &"d".to_string()), 1);
}

#[test]
fn repeated_training_accumulates_counts() {
    let mut model = bigram_model();
    let mut last: u32 = model.count(&toks(&["the"]), &"cat".to_string());
    assert_eq!(last, 1);
    for round in 2..6u32 {
        assert_eq!(model.train(cat_corpus()), Ok(()));
        let now = model.count(&toks(&["the"]), &"cat".to_string());
        assert!(now >= last);
        assert_eq!(now, round);
        last = now;
    }
    for row in &model.table().rows {
        for tally in &row.tallies {
            assert!(tally.count >= 1);
        }
    }
}

#[test]
fn training_on_other_pairs_leaves_counts_alone() {
    let mut model = bigram_model();
    assert_eq!(model.train(vec![toks(&["the", "dog"])]), Ok(()));
    assert_eq!(model.count(&toks(&["the"]), &"cat".to_string()), 1);
    assert_eq!(model.count(&toks(&["the"]), &"dog".to_string()), 1);
}

#[test]
fn training_on_an_empty_corpus_changes_nothing() {
    let mut model = bigram_model();
    assert_eq!(model.train(Vec::new()), Ok(()));
    assert_eq!(model.table().rows.len(), 4);
}

#[test]
fn training_rejects_a_sequence_shorter_than_a_window() {
    let mut model = bigram_model();
    let corpus = vec![toks(&["the", "cat"]), toks(&["alone"])];
    assert_eq!(model.train(corpus), Err(TrainError::SequenceTooShort));
    assert_eq!(model.count(&toks(&["the"]), &"cat".to_string()), 1);
    assert_eq!(model.table().rows.len(), 4);
}

#[test]
fn training_rejects_an_empty_sequence() {
    let mut model = Model::new(Config::default());
    assert_eq!(model.train(vec![Vec::new()]), Err(TrainError::SequenceTooShort));
    assert_eq!(model.train(vec![sos(eos(Vec::new()))]), Err(TrainError::SequenceTooShort));
    assert!(model.table().rows.is_empty());
}

#[test]
fn training_rejects_a_count_beyond_32_bits() {
    let mut model = Model::new(Config::new(1, true, 1, 1));
    assert_eq!(model.load("[[\"a\",{\"b\":4294967295}]]"), Ok(()));
    assert_eq!(model.count(&toks(&["a"]), &"b".to_string()), u32::MAX);
    let corpus = vec![toks(&["x", "y"]), toks(&["a", "b"])];
    assert_eq!(model.train(corpus), Err(TrainError::CountOverflow));
    assert_eq!(model.count(&toks(&["a"]), &"b".to_string()), u32::MAX);
    assert_eq!(model.count(&toks(&["x"]), &"y".to_string()), 0);
    assert_eq!(model.table().rows.len(), 1);
}

#[test]
fn reset_empties_the_table_and_keeps_the_configuration() {
    let mut model = bigram_model();
    model.reset();
    assert!(model.table().rows.is_empty());
    assert_eq!(model.configuration().context, 1);
    assert_eq!(model.predict(toks(&["the"])), "__eos__");
}

#[test]
fn single_continuation_is_predicted_every_time() {
    let model = bigram_model();
    for _ in 0..50 {
        assert_eq!(model.predict(toks(&["the"])), "cat");
    }
}

#[test]
fn prediction_uses_only_the_most_recent_tokens() {
    let model = bigram_model();
    assert_eq!(model.predict(toks(&["some", "older", "tokens", "the"])), "cat");
    assert_eq!(model.candidates(toks(&["x", "y", "cat"])), toks(&["sat"]));
}

#[test]
fn get_resolves_exact_contexts() {
    let model = bigram_model();
    let found = model.get(toks(&["the"])).map(|ts| ts.len());
    assert_eq!(found, Some(1));
    assert!(model.get(toks(&["dog"])).is_none());
}

#[test]
fn get_does_not_cut_its_context() {
    let mut model = Model::new(Config::new(1, false, 1, 1));
    assert_eq!(model.train(cat_corpus()), Ok(()));
    assert!(model.get(toks(&["x", "the"])).is_none());
    assert!(model.get(toks(&["the"])).is_some());
}

#[test]
fn without_backoff_an_unseen_context_predicts_the_end_marker() {
    let mut model = Model::new(Config::new(2, false, 1, 1));
    assert_eq!(model.load("[[\"the\",{\"cat\":3}]]"), Ok(()));
    for _ in 0..20 {
        assert_eq!(model.predict(toks(&["x", "the"])), "__eos__");
    }
    assert!(model.candidates(toks(&["x", "the"])).is_empty());
    assert_eq!(model.predict(toks(&["the"])), "cat");
}

#[test]
fn with_backoff_an_unseen_context_predicts_from_its_seen_suffix() {
    let mut model = Model::new(Config::new(2, true, 1, 1));
    assert_eq!(model.load("[[\"the\",{\"cat\":3}]]"), Ok(()));
    for _ in 0..20 {
        assert_eq!(model.predict(toks(&["x", "the"])), "cat");
    }
    assert_eq!(model.candidates(toks(&["x", "the"])), toks(&["cat"]));
}

#[test]
fn backoff_prefers_the_longest_seen_suffix() {
    let mut model = Model::new(Config::new(2, true, 1, 1));
    let text = "[[\"the\",{\"short\":1}],[\"x<[SP]>the\",{\"long\":1}],[\"\",{\"none\":1}]]";
    assert_eq!(model.load(text), Ok(()));
    assert_eq!(model.predict(toks(&["x", "the"])), "long");
    assert_eq!(model.predict(toks(&["y", "the"])), "short");
    assert_eq!(model.predict(toks(&["y", "z"])), "__eos__");
}

#[test]
fn backoff_ends_without_a_row() {
    let mut model = Model::new(Config::default());
    assert_eq!(model.train(vec![toks(&["a", "b", "c"])]), Ok(()));
    assert_eq!(model.predict(toks(&["b", "a"])), "__eos__");
    assert_eq!(model.predict(toks(&["a"])), "__eos__");
    assert_eq!(model.predict(toks(&["a", "b"])), "c");
}

#[test]
fn rank_orders_by_count_and_keeps_ties_in_place() {
    let ts = tallies(&[("a", 1), ("b", 5), ("c", 3), ("d", 5), ("e", 2)]);
    assert_eq!(rank(&ts), vec![1, 3, 2, 4, 0]);
    assert_eq!(rank(&tallies(&[("a", 2), ("b", 2), ("c", 2)])), vec![0, 1, 2]);
    assert_eq!(rank(&tallies(&[("a", 1), ("b", 2), ("c", 3)])), vec![2, 1, 0]);
    assert_eq!(rank(&Vec::new()), Vec::<usize>::new());
}

#[test]
fn candidates_are_the_top_fraction() {
    let ts = tallies(&[("a", 1), ("b", 5), ("c", 3), ("d", 5), ("e", 2)]);
    assert_eq!(top_candidates(&ts, 4, 5), toks(&["b", "d", "c", "e"]));
    assert_eq!(top_candidates(&ts, 3, 5), toks(&["b", "d", "c"]));
    assert_eq!(top_candidates(&ts, 1, 2), toks(&["b", "d"]));
    assert_eq!(top_candidates(&ts, 1, 5), toks(&["b"]));
    assert_eq!(top_candidates(&ts, 1, 1), toks(&["b", "d", "c", "e", "a"]));
}

#[test]
fn candidates_are_at_least_one() {
    let ts = tallies(&[("a", 1), ("b", 5), ("c", 3)]);
    assert_eq!(top_candidates(&ts, 1, 10), toks(&["b"]));
    assert_eq!(top_candidates(&ts, 1, 4), toks(&["b"]));
    assert_eq!(top_candidates(&ts, 1, 1000000), toks(&["b"]));
    assert_eq!(top_candidates(&tallies(&[("only", 7)]), 4, 5), toks(&["only"]));
}

#[test]
fn candidates_round_down() {
    let ts = tallies(&[("a", 9), ("b", 8), ("c", 7), ("d", 6), ("e", 5), ("f", 4), ("g", 3)]);
    assert_eq!(top_candidates(&ts, 4, 5), toks(&["a", "b", "c", "d", "e"]));
    assert_eq!(top_candidates(&ts, 2, 7), toks(&["a", "b"]));
    assert_eq!(top_candidates(&ts, 299, 700), toks(&["a", "b"]));
}

#[test]
fn candidates_of_no_tallies_are_none() {
    assert!(top_candidates(&Vec::new(), 4, 5).is_empty());
}

#[test]
fn candidates_with_large_fraction_parts() {
    let ts = tallies(&[("a", 2), ("b", 1)]);
    assert_eq!(top_candidates(&ts, u64::MAX, u64::MAX), toks(&["a", "b"]));
    assert_eq!(top_candidates(&ts, u64::MAX / 2, u64::MAX), toks(&["a"]));
}

#[test]
fn prediction_is_one_of_the_candidates() {
    let mut model = Model::new(Config::new(1, true, 2, 3));
    let corpus = vec![
        toks(&["a", "x"]),
        toks(&["a", "y"]),
        toks(&["a", "y"]),
        toks(&["a", "z"]),
        toks(&["a", "z"]),
        toks(&["a", "z"]),
    ];
    assert_eq!(model.train(corpus), Ok(()));
    let candidates = model.candidates(toks(&["a"]));
    assert_eq!(candidates, toks(&["z", "y"]));
    for _ in 0..200 {
        let token = model.predict(toks(&["a"]));
        assert!(candidates.contains(&token));
        assert_ne!(token, "x");
    }
}

#[test]
fn prediction_reaches_every_candidate() {
    let mut model = Model::new(Config::new(1, true, 1, 1));
    assert_eq!(
        model.train(vec![toks(&["a", "x"]), toks(&["a", "y"]), toks(&["a", "z"])]),
        Ok(())
    );
    let mut seen = [false; 3];
    for _ in 0..2000 {
        match model.predict(toks(&["a"])).as_str() {
            "x" => seen[0] = true,
            "y" => seen[1] = true,
            "z" => seen[2] = true,
            other => panic!("{} is no candidate", other),
        }
    }
    assert_eq!(seen, [true, true, true]);
}

#[test]
fn chosen_or_end_passes_the_choice_on() {
    assert_eq!(chosen_or_end(Some("cat".to_string())), "cat");
    assert_eq!(chosen_or_end(None), "__eos__");
}

#[test]
fn generate_follows_the_only_path_to_the_end_marker() {
    let model = bigram_model();
    let mut tokens = toks(&["__sos__"]);
    model.generate(&mut tokens, 10);
    assert_eq!(tokens, toks(&["__sos__", "the", "cat", "sat", "__eos__"]));
}

#[test]
fn generate_stops_after_max_steps() {
    let model = bigram_model();
    let mut tokens = toks(&["__sos__"]);
    model.generate(&mut tokens, 2);
    assert_eq!(tokens, toks(&["__sos__", "the", "cat"]));
}

#[test]
fn generate_with_no_steps_appends_nothing() {
    let model = bigram_model();
    let mut tokens = toks(&["__sos__"]);
    model.generate(&mut tokens, 0);
    assert_eq!(tokens, toks(&["__sos__"]));
}

#[test]
fn generate_appends_the_end_marker_and_stops() {
    let model = Model::new(Config::default());
    let mut tokens = toks(&["The", "quick"]);
    model.generate(&mut tokens, 10);
    assert_eq!(tokens, toks(&["The", "quick", "__eos__"]));
}

#[test]
fn generate_stops_exactly_at_the_end_marker() {
    let model = bigram_model();
    let mut tokens = toks(&["__sos__"]);
    model.generate(&mut tokens, 4);
    assert_eq!(tokens, toks(&["__sos__", "the", "cat", "sat", "__eos__"]));
}

#[test]
fn generate_never_appends_more_than_max_tokens() {
    let mut model = Model::new(Config::default());
    let corpus: Vec<Vec<String>> =
        tiny_corpus().iter().map(|t| sos(eos(tokenize(t.to_owned())))).collect();
    assert_eq!(model.train(corpus), Ok(()));
    for max in 0..12u32 {
        for _ in 0..10 {
            let mut tokens = sos(tokenize("The quick".to_string()));
            let before = tokens.len();
            model.generate(&mut tokens, max);
            let added = tokens.len() - before;
            assert!(added <= max as usize);
            assert_eq!(&tokens[..before], &toks(&["__sos__", "The", "quick"])[..]);
            for (place, token) in tokens.iter().enumerate().skip(before) {
                if token == "__eos__" {
                    assert_eq!(place, tokens.len() - 1);
                }
            }
            if added < max as usize {
                assert_eq!(tokens[tokens.len() - 1], "__eos__");
            }
        }
    }
}

#[test]
fn trained_on_the_tiny_corpus_the_model_continues_a_sentence() {
    let mut model = Model::new(Config::default());
    let corpus: Vec<Vec<String>> =
        tiny_corpus().iter().map(|t| sos(eos(tokenize(t.to_owned())))).collect();
    assert_eq!(model.train(corpus), Ok(()));
    assert_eq!(model.count(&toks(&["__sos__", "The"]), &"quick".to_string()), 1);
    assert_eq!(model.count(&toks(&["brown", "fox"]), &"jumps".to_string()), 5);
    let next = model.predict(toks(&["__sos__", "The", "quick"]));
    assert_eq!(next, "brown");
}
