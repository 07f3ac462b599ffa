use n_gram::{decode_context, encode_context, Config, LoadError, Model, Table, SPLIT_TOKEN};

fn list(items: &[&str]) -> Vec<String> {
    items.iter().map(|w| w.to_string()).collect()
}

fn pairs(items: &[(&str, u32)]) -> Vec<(String, u32)> {
    items.iter().map(|(token, count)| (token.to_string(), *count)).collect()
}

fn trained(context: usize, corpus: &[&[&str]]) -> Model {
    let mut model = Model::new(Config::new(context, true, 1, 1));
    let corpus: Vec<Vec<String>> = corpus.iter().map(|s| list(s)).collect();
    assert_eq!(model.train(corpus), Ok(()));
    model
}

#[test]
fn delimiter_is_the_reserved_string() {
    assert_eq!(SPLIT_TOKEN, "<[SP]>");
}

#[test]
fn encode_joins_tokens_with_the_delimiter() {
    assert_eq!(encode_context(&list(&["a", "b", "c"])), "a<[SP]>b<[SP]>c");
    assert_eq!(encode_context(&list(&["alone"])), "alone");
    assert_eq!(encode_context(&Vec::new()), "");
    assert_eq!(encode_context(&list(&["", ""])), "<[SP]>");
}

#[test]
fn decode_splits_at_the_delimiter() {
    assert_eq!(decode_context("a<[SP]>b<[SP]>c"), list(&["a", "b", "c"]));
    assert_eq!(decode_context("alone"), list(&["alone"]));
    assert_eq!(decode_context(""), list(&[""]));
    assert_eq!(decode_context("<[SP]>"), list(&["", ""]));
    assert_eq!(decode_context("a<[SP]>"), list(&["a", ""]));
    assert_eq!(decode_context("<[SP]><[SP]>x"), list(&["", "", "x"]));
}

#[test]
fn decode_ignores_parts_of_the_delimiter() {
    assert_eq!(decode_context("a<[SP]b"), list(&["a<[SP]b"]));
    assert_eq!(decode_context("<[SP<[SP]>]>"), list(&["<[SP", "]>"]));
    assert_eq!(decode_context("<<[SP]>>"), list(&["<", ">"]));
    assert_eq!(decode_context("[SP]>"), list(&["[SP]>"]));
}

#[test]
fn decode_agrees_with_split() {
    let samples = ["", "a", "a<[SP]>b", "<[SP]>", "x<[SP]><[SP]>y", "<[SP]", "é<[SP]>日本<[SP]>"];
    for sample in samples {
        let expected: Vec<String> = sample.split("<[SP]>").map(|t| t.to_string()).collect();
        assert_eq!(decode_context(sample), expected);
    }
}

#[test]
fn decode_undoes_encode() {
    let contexts = [
        list(&["a"]),
        list(&["a", "b"]),
        list(&["__sos__", "The"]),
        list(&["", "x", ""]),
        list(&["a<", "[SP]>b"]),
        list(&["<[SP", "]>"]),
        list(&["héllo", "日本語", "<"]),
    ];
    for context in contexts {
        assert_eq!(decode_context(&encode_context(&context)), context);
    }
}

#[test]
fn save_writes_an_array_of_pairs() {
    let model = trained(1, &[&["__sos__", "the", "cat", "sat", "__eos__"]]);
    assert_eq!(
        model.save().unwrap(),
        "[[\"__sos__\",{\"the\":1}],[\"the\",{\"cat\":1}],[\"cat\",{\"sat\":1}],[\"sat\",{\"__eos__\":1}]]"
    );
}

#[test]
fn save_joins_the_tokens_of_a_context() {
    let model = trained(2, &[&["a", "b", "c"], &["a", "b", "a"], &["a", "b", "c"]]);
    assert_eq!(model.save().unwrap(), "[[\"a<[SP]>b\",{\"a\":1,\"c\":2}]]");
}

#[test]
fn save_of_an_empty_model_is_an_empty_array() {
    let model = Model::new(Config::default());
    assert_eq!(model.save().unwrap(), "[]");
}

#[test]
fn records_list_the_rows() {
    let model = trained(2, &[&["a", "b", "c"], &["a", "b", "a"], &["a", "b", "c"]]);
    assert_eq!(model.records(), vec![("a<[SP]>b".to_string(), pairs(&[("c", 2), ("a", 1)]))]);
}

#[test]
fn load_reads_an_array_of_pairs() {
    let mut model = Model::new(Config::default());
    assert_eq!(model.load("[[\"a<[SP]>b\",{\"c\":2,\"a\":1}],[\"b<[SP]>c\",{\"d\":7}]]"), Ok(()));
    assert_eq!(model.count(&list(&["a", "b"]), &"c".to_string()), 2);
    assert_eq!(model.count(&list(&["a", "b"]), &"a".to_string()), 1);
    assert_eq!(model.count(&list(&["b", "c"]), &"d".to_string()), 7);
    assert_eq!(model.table().rows.len(), 2);
    assert_eq!(model.table().rows[0].context, list(&["a", "b"]));
    assert_eq!(model.table().rows[1].context, list(&["b", "c"]));
}

#[test]
fn load_replaces_the_table() {
    let mut model = trained(1, &[&["the", "cat"]]);
    assert_eq!(model.load("[[\"a\",{\"b\":1}]]"), Ok(()));
    assert_eq!(model.count(&list(&["the"]), &"cat".to_string()), 0);
    assert_eq!(model.count(&list(&["a"]), &"b".to_string()), 1);
    assert_eq!(model.table().rows.len(), 1);
    assert_eq!(model.configuration().context, 1);
}

#[test]
fn load_of_an_empty_array_empties_the_table() {
    let mut model = trained(1, &[&["the", "cat"]]);
    assert_eq!(model.load("[]"), Ok(()));
    assert!(model.table().rows.is_empty());
}

#[test]
fn load_undoes_save() {
    let mut model = trained(
        2,
        &[
            &["__sos__", "the", "cat", "sat", "__eos__"],
            &["__sos__", "the", "cat", "ran", "__eos__"],
            &["__sos__", "the", "dog", "sat", "__eos__"],
        ],
    );
    let text = model.save().unwrap();
    let before: Vec<(Vec<String>, Vec<(String, u32)>)> = model
        .table()
        .rows
        .iter()
        .map(|row| {
            let mut tallies: Vec<(String, u32)> =
                row.tallies.iter().map(|t| (t.token.clone(), t.count)).collect();
            tallies.sort();
            (row.context.clone(), tallies)
        })
        .collect();
    model.reset();
    assert_eq!(model.load(&text), Ok(()));
    let after: Vec<(Vec<String>, Vec<(String, u32)>)> = model
        .table()
        .rows
        .iter()
        .map(|row| {
            let mut tallies: Vec<(String, u32)> =
                row.tallies.iter().map(|t| (t.token.clone(), t.count)).collect();
            tallies.sort();
            (row.context.clone(), tallies)
        })
        .collect();
    assert_eq!(before, after);
    assert_eq!(model.count(&list(&["the", "cat"]), &"sat".to_string()), 1);
    assert_eq!(model.count(&list(&["__sos__", "the"]), &"cat".to_string()), 2);
    assert_eq!(model.save().unwrap(), text);
}

#[test]
fn reset_then_save_and_load_gives_an_empty_table() {
    let mut model = trained(1, &[&["the", "cat", "sat"]]);
    model.reset();
    let text = model.save().unwrap();
    assert_eq!(text, "[]");
    let mut other = trained(1, &[&["a", "b"]]);
    assert_eq!(other.load(&text), Ok(()));
    assert!(other.table().rows.is_empty());
    assert_eq!(other.predict(list(&["a"])), "__eos__");
}

#[test]
fn restore_undoes_records() {
    let model = trained(2, &[&["a", "b", "c", "a", "b", "d"], &["b", "c", "a"]]);
    let records = model.records();
    let mut other = Model::new(Config::default());
    assert_eq!(other.restore(&records), Ok(()));
    assert_eq!(other.records(), records);
    assert_eq!(other.table().rows.len(), model.table().rows.len());
    for (a, b) in other.table().rows.iter().zip(model.table().rows.iter()) {
        assert_eq!(a.context, b.context);
        assert_eq!(a.tallies.len(), b.tallies.len());
        for (x, y) in a.tallies.iter().zip(b.tallies.iter()) {
            assert_eq!(x.token, y.token);
            assert_eq!(x.count, y.count);
        }
    }
}

#[test]
fn restore_lets_the_last_record_of_a_context_stand() {
    let mut model = Model::new(Config::default());
    let records = vec![
        ("a".to_string(), pairs(&[("x", 1)])),
        ("b".to_string(), pairs(&[("y", 2)])),
        ("a".to_string(), pairs(&[("z", 3), ("z", 4)])),
    ];
    assert_eq!(model.restore(&records), Ok(()));
    assert_eq!(model.table().rows.len(), 2);
    assert_eq!(model.table().rows[0].context, list(&["a"]));
    assert_eq!(model.count(&list(&["a"]), &"x".to_string()), 0);
    assert_eq!(model.count(&list(&["a"]), &"z".to_string()), 4);
    assert_eq!(model.count(&list(&["b"]), &"y".to_string()), 2);
}

#[test]
fn restore_rejects_a_count_of_zero() {
    let mut model = trained(1, &[&["the", "cat"]]);
    let records =
        vec![("a".to_string(), pairs(&[("x", 1)])), ("b".to_string(), pairs(&[("y", 0)]))];
    assert_eq!(model.restore(&records), Err(LoadError::ZeroCount));
    assert_eq!(model.count(&list(&["the"]), &"cat".to_string()), 1);
    assert_eq!(model.table().rows.len(), 1);
}

#[test]
fn table_from_records_builds_a_table() {
    let records = vec![("a<[SP]>b".to_string(), pairs(&[("x", 1), ("y", 2)]))];
    let table = Table::from_records(&records).unwrap();
    assert_eq!(table.rows.len(), 1);
    assert_eq!(table.rows[0].context, list(&["a", "b"]));
    assert_eq!(table.count(&list(&["a", "b"]), &"y".to_string()), 2);
    assert_eq!(table.records(), records);
    assert!(matches!(
        Table::from_records(&vec![("a".to_string(), pairs(&[("x", 0)]))]),
        Err(LoadError::ZeroCount)
    ));
}

#[test]
fn load_rejects_a_count_of_zero() {
    let mut model = trained(1, &[&["the", "cat"]]);
    assert_eq!(model.load("[[\"a\",{\"b\":0}]]"), Err(LoadError::ZeroCount));
    assert_eq!(model.count(&list(&["the"]), &"cat".to_string()), 1);
}

#[test]
fn load_rejects_text_that_is_no_document() {
    let mut model = trained(1, &[&["the", "cat"]]);
    let texts = [
        "",
        "not json",
        "{}",
        "[[\"a\"]]",
        "[[\"a\",{\"b\":1}]",
        "[[\"a\",{\"b\":-1}]]",
        "[[\"a\",{\"b\":4294967296}]]",
        "[[\"a\",{\"b\":1.5}]]",
        "[[\"a\",{\"b\":\"1\"}]]",
        "[[1,{\"b\":1}]]",
        "[[\"a\",[\"b\",1]]]",
        "[[\"a\",{\"b\":1},3]]",
        "[[\"a\",{\"b\":1}]] trailing",
    ];
    for text in texts {
        assert_eq!(model.load(text), Err(LoadError::Malformed));
        assert_eq!(model.count(&list(&["the"]), &"cat".to_string()), 1);
        assert_eq!(model.table().rows.len(), 1);
    }
}

#[test]
fn load_accepts_whitespace_and_escapes() {
    let mut model = Model::new(Config::default());
    assert_eq!(model.load(" [ [ \"a\\u0041\" , { \"q\\\"\" : 2 } ] ] \n"), Ok(()));
    assert_eq!(model.count(&list(&["aA"]), &"q\"".to_string()), 2);
}

#[test]
fn load_lets_the_last_of_two_equal_keys_stand() {
    let mut model = Model::new(Config::default());
    assert_eq!(model.load("[[\"a\",{\"b\":1,\"b\":5}],[\"a\",{\"c\":2}]]"), Ok(()));
    assert_eq!(model.table().rows.len(), 1);
    assert_eq!(model.count(&list(&["a"]), &"b".to_string()), 0);
    assert_eq!(model.count(&list(&["a"]), &"c".to_string()), 2);
}

#[test]
fn save_escapes_what_json_requires() {
    let model = trained(1, &[&["say", "\"hi\"", "back\\slash"]]);
    let text = model.save().unwrap();
    assert_eq!(text, "[[\"say\",{\"\\\"hi\\\"\":1}],[\"\\\"hi\\\"\",{\"back\\\\slash\":1}]]");
    let mut other = Model::new(Config::new(1, true, 1, 1));
    assert_eq!(other.load(&text), Ok(()));
    assert_eq!(other.count(&list(&["say"]), &"\"hi\"".to_string()), 1);
    assert_eq!(other.count(&list(&["\"hi\""]), &"back\\slash".to_string()), 1);
}

#[test]
fn saved_text_passes_the_text_on() {
    assert_eq!(n_gram::saved_text(Ok("[]".to_string())), Ok("[]".to_string()));
    assert_eq!(
        n_gram::saved_text(serde_json::to_string(&vec![("a", 1u32)])),
        Ok("[[\"a\",1]]".to_string())
    );
}

#[test]
fn saved_text_reports_an_error_of_the_serializer() {
    let refused = serde_json::from_str::<String>("no json").map_err(|e| e);
    assert!(refused.is_err());
    assert_eq!(n_gram::saved_text(refused), Err(n_gram::SaveError::Encoding));
}
