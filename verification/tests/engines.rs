use inference_bench::definition::{read_definition, Reading};
use inference_bench::encode::{LoadError, ModelInput, TextEncoder, TokenRow};
use inference_bench::engine::{
    CandleEngine, EmbedError, HiddenState, OrtEngine, OrtInput,
};
use inference_bench::pooling::PoolRow;

const BERT: &str = r#"{"type":"BertProcessing","sep":["[SEP]",102],"cls":["[CLS]",101]}"#;

fn definition(post_processor: &str) -> String {
    let mut s = String::from(
        r#"{"version":"1.0","truncation":null,"padding":null,"added_tokens":[],
        "normalizer":null,"pre_tokenizer":{"type":"WhitespaceSplit"},"decoder":null,
        "model":{"type":"WordLevel","vocab":{"[UNK]":0,"a":1,"b":2,"c":3},"unk_token":"[UNK]"},
        "post_processor":"#,
    );
    s.push_str(post_processor);
    s.push('}');
    s
}

fn crowded() -> String {
    let ids: Vec<String> = (0..513).map(|_| "7".to_string()).collect();
    let tokens: Vec<String> = (0..513).map(|_| "\"x\"".to_string()).collect();
    let mut s = String::from(
        r#"{"type":"TemplateProcessing",
        "single":[{"SpecialToken":{"id":"X","type_id":0}},{"Sequence":{"id":"A","type_id":0}}],
        "pair":[{"Sequence":{"id":"A","type_id":0}},{"Sequence":{"id":"B","type_id":0}}],
        "special_tokens":{"X":{"id":"X","ids":["#,
    );
    s.push_str(&ids.join(","));
    s.push_str("],\"tokens\":[");
    s.push_str(&tokens.join(","));
    s.push_str("]}}}");
    definition(&s)
}

fn batch(v: &[&str]) -> Vec<String> {
    v.iter().map(|s| s.to_string()).collect()
}

#[test]
fn rows_are_padded_to_the_longest() {
    let encoder = TextEncoder::load(&definition(BERT)).ok().unwrap();
    let rows = encoder.encode(&batch(&["a b", "c"])).unwrap();
    assert_eq!(rows.len(), 2);
    assert_eq!(rows[0].ids, vec![101, 1, 2, 102]);
    assert_eq!(rows[0].mask, vec![1, 1, 1, 1]);
    assert_eq!(rows[1].ids, vec![101, 3, 102, 0]);
    assert_eq!(rows[1].mask, vec![1, 1, 1, 0]);
    assert!(encoder.encode(&Vec::new()).unwrap().is_empty());
}

#[test]
fn long_rows_are_cut() {
    let encoder = TextEncoder::load(&definition(BERT)).ok().unwrap();
    let long = vec!["a"; 600].join(" ");
    let rows = encoder.encode(&vec![long]).unwrap();
    assert_eq!(rows[0].ids.len(), 512);
    assert_eq!(rows[0].ids[511], 102);
}

#[test]
fn definitions_without_post_processor_load() {
    let encoder = TextEncoder::load(&definition("null")).ok().unwrap();
    let rows = encoder.encode(&batch(&["b d"])).unwrap();
    assert_eq!(rows[0].ids, vec![2, 0]);
}

#[test]
fn bytes_that_define_nothing_are_refused() {
    assert!(matches!(TextEncoder::load("{}"), Err(LoadError::Tokenizer(_))));
    assert!(matches!(CandleEngine::load(""), Err(LoadError::Tokenizer(_))));
    assert!(matches!(OrtEngine::load("no"), Err(LoadError::Tokenizer(_))));
}

#[test]
fn crowded_definitions_are_refused() {
    assert!(matches!(TextEncoder::load(&crowded()), Err(LoadError::AddedTokens(513))));
    assert!(matches!(CandleEngine::load(&crowded()), Err(LoadError::AddedTokens(513))));
}

fn row(ids: &[u32], mask: &[u32]) -> TokenRow {
    TokenRow { ids: ids.to_vec(), mask: mask.to_vec() }
}

#[test]
fn rows_are_laid_out_one_after_the_other() {
    let rows = vec![row(&[1, 2], &[1, 1]), row(&[3, 0], &[1, 0])];
    let input = ModelInput::prepare(&rows).unwrap();
    assert_eq!((input.n, input.seq), (2, 2));
    assert_eq!(input.ids, vec![1, 2, 3, 0]);
    assert_eq!(input.mask, vec![1, 1, 1, 0]);
    assert_eq!(input.token_types, vec![0, 0, 0, 0]);
}

#[test]
fn uneven_rows_do_not_fit() {
    assert!(ModelInput::prepare(&vec![row(&[1, 2], &[1, 1]), row(&[3], &[1])]).is_none());
    assert!(ModelInput::prepare(&vec![row(&[1, 2], &[1])]).is_none());
    let empty = ModelInput::prepare(&vec![row(&[], &[])]).unwrap();
    assert_eq!((empty.n, empty.seq), (1, 0));
}

fn id_sums(input: &ModelInput) -> Result<Vec<u32>, String> {
    Ok((0..input.n)
        .map(|s| input.ids[s * input.seq..(s + 1) * input.seq].iter().sum())
        .collect())
}

#[test]
fn candle_runs_the_model_on_the_batch() {
    let engine = CandleEngine::load(&definition(BERT)).ok().unwrap();
    assert_eq!(engine.name(), "candle-cpu");
    let out = engine.embed_batch(&batch(&["a b", "c"]), &id_sums).ok().unwrap();
    assert_eq!(out, vec![206, 206]);
    assert_eq!(engine.forward(&batch(&["c"]), &id_sums).ok().unwrap(), vec![206]);
}

#[test]
fn one_sentence_is_a_batch_of_one() {
    let engine = CandleEngine::load(&definition("null")).ok().unwrap();
    let one = engine.embed("a b b", &id_sums).ok().unwrap();
    let all = engine.embed_batch(&batch(&["a b b"]), &id_sums).ok().unwrap();
    assert_eq!(one, 5);
    assert_eq!(all, vec![5]);
}

#[test]
fn empty_batches_do_not_reach_the_model() {
    let engine = CandleEngine::load(&definition(BERT)).ok().unwrap();
    let fails = |_input: &ModelInput| -> Result<Vec<u32>, String> { Err("ran".to_string()) };
    assert_eq!(engine.embed_batch(&Vec::new(), &fails).ok().unwrap(), Vec::<u32>::new());
    match engine.embed_batch(&batch(&["a"]), &fails) {
        Err(EmbedError::Model(e)) => assert_eq!(e, "ran"),
        other => panic!("{other:?}"),
    }
    assert!(matches!(engine.embed("a", &fails), Err(EmbedError::Model(_))));
}

#[test]
fn texts_that_cannot_be_tokenized_are_an_error() {
    let no_unknown =
        definition("null").replace("\"unk_token\":\"[UNK]\"", "\"unk_token\":\"missing\"");
    let engine = CandleEngine::load(&no_unknown).ok().unwrap();
    match engine.embed_batch(&batch(&["zebra"]), &id_sums) {
        Err(EmbedError::Tokenize(_)) => {}
        other => panic!("{other:?}"),
    }
}

fn hidden(input: &OrtInput) -> Result<HiddenState<Vec<f32>>, String> {
    let mut data = Vec::new();
    for id in &input.ids {
        data.push(*id as f32);
        data.push(-(*id as f32));
    }
    let len = data.len();
    Ok(HiddenState { data, len, size: 2 })
}

fn mean(data: &Vec<f32>, row: &PoolRow, size: usize) -> Vec<f32> {
    let mut acc = vec![0f32; size];
    for term in &row.terms {
        for h in 0..size {
            acc[h] += data[term.base + h] * term.weight as f32;
        }
    }
    acc.iter().map(|x| x / row.denominator as f32).collect()
}

#[test]
fn ort_pools_over_the_mask() {
    let engine = OrtEngine::load(&definition("null")).ok().unwrap();
    assert_eq!(engine.name(), "ort-cpu");
    let out = engine.embed_batch(&batch(&["a b c", "c"]), &hidden, &mean).ok().unwrap();
    assert_eq!(out, vec![vec![2.0, -2.0], vec![3.0, -3.0]]);
    let one = engine.embed("c", &hidden, &mean).ok().unwrap();
    assert_eq!(one, vec![3.0, -3.0]);
}

#[test]
fn ort_takes_wide_integers() {
    let engine = OrtEngine::load_coreml(&definition(BERT)).ok().unwrap();
    assert_eq!(engine.name(), "ort-coreml");
    let seen = |input: &OrtInput| -> Result<HiddenState<Vec<i64>>, String> {
        assert_eq!((input.n, input.seq), (2, 4));
        assert_eq!(input.ids, vec![101, 1, 2, 102, 101, 3, 102, 0]);
        assert_eq!(input.mask, vec![1, 1, 1, 1, 1, 1, 1, 0]);
        assert_eq!(input.token_types, vec![0; 8]);
        Ok(HiddenState { data: input.ids.clone(), len: 8, size: 1 })
    };
    let count = |_data: &Vec<i64>, row: &PoolRow, _size: usize| row.terms.len();
    let out = engine.forward(&batch(&["a b", "c"]), &seen, &count).ok().unwrap();
    assert_eq!(out, vec![4, 3]);
}

#[test]
fn ort_hands_errors_on() {
    let engine = OrtEngine::load_with("custom", &definition(BERT)).ok().unwrap();
    assert_eq!(engine.name(), "custom");
    let fails = |_input: &OrtInput| -> Result<HiddenState<Vec<f32>>, String> {
        Err("ran".to_string())
    };
    assert!(engine.embed_batch(&Vec::new(), &fails, &mean).ok().unwrap().is_empty());
    assert!(matches!(
        engine.embed_batch(&batch(&["a"]), &fails, &mean),
        Err(EmbedError::Model(_))
    ));
}

fn refused(text: &str) -> bool {
    matches!(TextEncoder::load(text), Err(LoadError::Definition))
}

fn with(old: &str, new: &str) -> String {
    let plain = definition("null");
    assert!(plain.contains(old));
    plain.replace(old, new)
}

const NO_NORMALIZER: &str = "\"normalizer\":null";
const SPLIT: &str = "{\"type\":\"WhitespaceSplit\"}";
const NO_ADDED: &str = "\"added_tokens\":[]";

fn template(single: &str) -> String {
    let mut s = String::from(r#"{"type":"TemplateProcessing","single":["#);
    s.push_str(single);
    s.push_str(
        r#"],"pair":[{"Sequence":{"id":"A","type_id":0}},{"Sequence":{"id":"B","type_id":0}}],
        "special_tokens":{"X":{"id":"X","ids":[9],"tokens":["x"]}}}"#,
    );
    s
}

const A: &str = r#"{"Sequence":{"id":"A","type_id":0}}"#;
const B: &str = r#"{"Sequence":{"id":"B","type_id":0}}"#;
const X: &str = r#"{"SpecialToken":{"id":"X","type_id":0}}"#;
const Y: &str = r#"{"SpecialToken":{"id":"Y","type_id":0}}"#;

#[test]
fn templates_name_what_exists() {
    let good = definition(&template(&[X, A, X].join(",")));
    let encoder = TextEncoder::load(&good).ok().unwrap();
    let rows = encoder.encode(&batch(&["a b"])).unwrap();
    assert_eq!(rows[0].ids, vec![9, 1, 2, 9]);
    assert!(refused(&definition(&template(B))));
    assert!(refused(&definition(&template(&[A, Y].join(",")))));
    assert!(refused(&definition(&template(&[A, A].join(",")))));
    assert!(TextEncoder::load(&definition(&template(X))).is_ok());
}

#[test]
fn templates_come_last_in_a_sequence() {
    let byte_level = r#"{"type":"ByteLevel","add_prefix_space":true,"trim_offsets":false}"#;
    let sequence = |parts: &[&str]| {
        let mut s = String::from("{\"type\":\"Sequence\",\"processors\":[");
        s.push_str(&parts.join(","));
        s.push_str("]}");
        definition(&s)
    };
    let framed = template(&[X, A].join(","));
    let encoder = TextEncoder::load(&sequence(&[byte_level, BERT, &framed])).ok().unwrap();
    let rows = encoder.encode(&batch(&["c"])).unwrap();
    assert_eq!(rows[0].ids, vec![9, 101, 3, 102]);
    assert!(refused(&sequence(&[&framed, &framed])));
    assert!(refused(&sequence(&[&framed, BERT])));
    let nested = sequence(&[BERT]);
    let inner = nested.split("\"post_processor\":").nth(1).unwrap().trim_end_matches('}').to_string();
    let mut inner = inner;
    inner.push('}');
    assert!(refused(&sequence(&[&inner])));
}

#[test]
fn sequences_are_known_by_their_list() {
    let sequence = |kind: &str, parts: &[&str]| {
        let parts = parts.join(",");
        format!("{{\"type\":{kind},\"processors\":[{parts}]}}")
    };
    let framed = template(&[X, A, X].join(","));
    let object = "{\"Sequence\":null}";
    assert!(refused(&definition(&sequence(object, &[&framed, &framed]))));
    assert!(refused(&definition(&sequence(object, &[&template(Y)]))));
    assert!(refused(&definition(&sequence(object, &[&template(B)]))));
    let inner = sequence(object, &[&framed]);
    assert!(refused(&definition(&sequence("\"Sequence\"", &[&inner]))));
    assert!(refused(&definition(&sequence(object, &[&inner, BERT]))));
    let both = inner.replace("{\"type\"", "{\"single\":[],\"special_tokens\":{},\"type\"");
    assert!(refused(&definition(&both)));
    let encoder = TextEncoder::load(&definition(&inner)).ok().unwrap();
    assert_eq!(encoder.encode(&batch(&["b"])).unwrap()[0].ids, vec![9, 2, 9]);
}

#[test]
fn padding_of_the_definition_is_replaced() {
    let fixed = with(
        "\"padding\":null",
        "\"padding\":{\"strategy\":{\"Fixed\":1000},\"direction\":\"Left\",\
         \"pad_to_multiple_of\":null,\"pad_id\":7,\"pad_type_id\":0,\"pad_token\":\"p\"}",
    );
    let encoder = TextEncoder::load(&fixed).ok().unwrap();
    let rows = encoder.encode(&batch(&["a b", "c"])).unwrap();
    assert_eq!(rows[1].ids, vec![3, 0]);
    assert_eq!(rows[1].mask, vec![1, 0]);
}

#[test]
fn rows_stay_within_the_row_length() {
    let framed = definition(&template(&[X, A, X].join(",")));
    let encoder = TextEncoder::load(&framed).ok().unwrap();
    let long = vec!["a"; 2000].join(" ");
    let rows = encoder.encode(&vec![long, "b".to_string()]).unwrap();
    assert_eq!(rows[0].ids.len(), 512);
    assert_eq!(rows[1].ids.len(), 512);
}

#[test]
fn empty_chunks_are_refused() {
    let chunks = |n: &str| with(SPLIT, &format!("{{\"type\":\"FixedLength\",\"length\":{n}}}"));
    assert!(refused(&chunks("0")));
    let encoder = TextEncoder::load(&chunks("1")).ok().unwrap();
    assert_eq!(encoder.encode(&batch(&["abc"])).unwrap()[0].ids, vec![1, 2, 3]);
    let nested = with(
        SPLIT,
        "{\"type\":\"Sequence\",\"pretokenizers\":[{\"type\":\"FixedLength\",\"length\":0}]}",
    );
    assert!(refused(&nested));
    assert!(refused(&with(SPLIT, "{\"type\":\"Split\",\"pattern\":{\"String\":\" \"}}")));
}

#[test]
fn normalizers_are_looked_at() {
    let normalizer = |n: &str| with(NO_NORMALIZER, &format!("\"normalizer\":{n}"));
    assert!(refused(&normalizer("{\"type\":\"Precompiled\"}")));
    assert!(refused(&normalizer(
        "{\"type\":\"Sequence\",\"normalizers\":[{\"type\":\"Precompiled\"}]}"
    )));
    assert!(refused(&normalizer("{\"type\":\"BertNormalizer\"}")));
    assert!(refused(&normalizer("{\"type\":\"Prepend\",\"prepend\":\"\"}")));
    let bert = normalizer(
        "{\"type\":\"BertNormalizer\",\"clean_text\":true,\"handle_chinese_chars\":true,\
         \"strip_accents\":null,\"lowercase\":true}",
    );
    let encoder = TextEncoder::load(&bert).ok().unwrap();
    assert_eq!(encoder.encode(&batch(&["\u{200b}A B\u{0}"])).unwrap()[0].ids, vec![1, 2]);
    assert!(encoder.encode(&batch(&["\u{200b}", "é"])).is_ok());
    let both = normalizer(
        "{\"type\":\"Sequence\",\"normalizers\":[{\"type\":\"NFKD\"},{\"type\":\"Lowercase\"},\
         {\"type\":\"Strip\",\"strip_left\":true,\"strip_right\":true}]}",
    );
    let encoder = TextEncoder::load(&both).ok().unwrap();
    assert_eq!(encoder.encode(&batch(&[" \u{ff21} B "])).unwrap()[0].ids, vec![1, 2]);
}

fn token(content: &str, rstrip: bool, normalized: bool) -> String {
    format!(
        "{{\"id\":1,\"content\":\"{content}\",\"single_word\":false,\"lstrip\":true,\
         \"rstrip\":{rstrip},\"normalized\":{normalized},\"special\":true}}"
    )
}

#[test]
fn tokens_do_not_begin_in_taken_space() {
    let tokens = |v: &[String]| with(NO_ADDED, &format!("\"added_tokens\":[{}]", v.join(",")));
    let encoder = TextEncoder::load(&tokens(&[token("a", true, false), token("b", true, true)]));
    let rows = encoder.ok().unwrap().encode(&batch(&["c a  b \u{3000} a c", " a ", "a b"])).unwrap();
    assert_eq!(rows[0].ids, vec![3, 1, 2, 1, 3]);
    assert_eq!(rows[1].ids, vec![1, 0, 0, 0, 0]);
    assert_eq!(rows[2].ids, vec![1, 2, 0, 0, 0]);
    assert!(refused(&tokens(&[token("a", true, false), token(" b", false, false)])));
    assert!(refused(&tokens(&[token("\u{3000}", true, false)])));
    let apart = tokens(&[token("a", false, false), token("  ", false, false)]);
    assert!(TextEncoder::load(&apart).is_ok());
}

#[test]
fn normalized_tokens_stay_what_they_are() {
    let tokens = |v: &str, normalizer: &str| {
        with(NO_ADDED, &format!("\"added_tokens\":[{v}]"))
            .replace(NO_NORMALIZER, &format!("\"normalizer\":{normalizer}"))
    };
    let lower = "{\"type\":\"Lowercase\"}";
    let accents = "{\"type\":\"StripAccents\"}";
    let prepend = "{\"type\":\"Prepend\",\"prepend\":\"_\"}";
    let encoder = TextEncoder::load(&tokens(&token("A", false, true), lower)).ok().unwrap();
    assert_eq!(encoder.encode(&batch(&["B a c"])).unwrap()[0].ids, vec![2, 4, 3]);
    assert!(refused(&tokens(&token("\u{301}", false, true), accents)));
    assert!(refused(&tokens(&token("a b", false, true), lower)));
    assert!(refused(&tokens(&token("a", false, true), prepend)));
    assert!(TextEncoder::load(&tokens(&token("a", false, false), prepend)).is_ok());
    assert!(TextEncoder::load(&with(NO_ADDED, &format!("\"added_tokens\":[{}]", token("a b", false, true)))).is_ok());
    let encoder = TextEncoder::load(&tokens(&token("a", false, false), lower)).ok().unwrap();
    assert_eq!(encoder.encode(&batch(&["B a"])).unwrap()[0].ids, vec![2, 1]);
}

fn added(contents: &[String]) -> String {
    let tokens: Vec<String> = contents
        .iter()
        .map(|content| {
            format!(
                "{{\"id\":9,\"content\":\"{content}\",\"single_word\":false,\"lstrip\":false,\
                 \"rstrip\":false,\"normalized\":false,\"special\":true}}"
            )
        })
        .collect();
    format!("\"added_tokens\":[{}]", tokens.join(","))
}

#[test]
fn ids_leave_room_for_added_tokens() {
    let last = with("\"c\":3", "\"c\":4294967295");
    assert!(TextEncoder::load(&last).is_ok());
    let encoder = TextEncoder::load(&last.replace(NO_ADDED, &added(&batch(&["c"])))).ok().unwrap();
    assert_eq!(encoder.encode(&batch(&["a c"])).unwrap()[0].ids, vec![1, 4294967295]);
    assert!(refused(&last.replace(NO_ADDED, &added(&batch(&["c", "z"])))));
    let before = with("\"c\":3", "\"c\":4294967294");
    let encoder =
        TextEncoder::load(&before.replace(NO_ADDED, &added(&batch(&["c", "z"])))).ok().unwrap();
    assert_eq!(encoder.encode(&batch(&["c z"])).unwrap()[0].ids, vec![4294967294, 4294967295]);
}

#[test]
fn added_tokens_stay_searchable() {
    let some: Vec<String> = (0..300).map(|i| format!("<token {i}>")).collect();
    assert!(TextEncoder::load(&with(NO_ADDED, &added(&some))).is_ok());
    let many: Vec<String> = (0..4000).map(|i| format!("<token {i:030}>")).collect();
    assert!(refused(&with(NO_ADDED, &added(&many))));
}

#[test]
fn models_are_looked_at() {
    assert!(refused(&with("\"type\":\"WordLevel\"", "\"type\":\"BPE\"")));
    assert!(refused(&with("\"type\":\"WordLevel\"", "\"type\":\"Unigram\"")));
    let untyped = with("\"type\":\"WordLevel\",", "");
    assert!(TextEncoder::load(&untyped).is_ok());
    assert!(refused(&untyped.replace("\"unk_token\"", "\"merges\":[],\"unk_token\"")));
    let pieces = with(
        "\"type\":\"WordLevel\"",
        "\"type\":\"WordPiece\",\"continuing_subword_prefix\":\"\",\
         \"max_input_chars_per_word\":100",
    );
    let encoder = TextEncoder::load(&pieces).ok().unwrap();
    assert_eq!(encoder.encode(&batch(&["abc d"])).unwrap()[0].ids, vec![1, 2, 3, 0]);
}

#[test]
fn repeated_names_are_refused() {
    assert!(refused(&with(NO_NORMALIZER, "\"normalizer\":null,\"normalizer\":null")));
    assert!(refused(&with("\"c\":3", "\"c\":3,\"c\":2")));
    let quoted = with("\"c\":3", "\"c\":3,\"x:\\\":y\":2");
    assert!(TextEncoder::load(&quoted).is_ok());
    assert!(matches!(read_definition(&definition(BERT)), Reading::Admitted));
    assert!(matches!(read_definition("{"), Reading::NotJson(_)));
    assert!(matches!(read_definition("[]"), Reading::Admitted));
    assert!(matches!(TextEncoder::load("[]"), Err(LoadError::Tokenizer(_))));
}

#[test]
fn engines_of_one_definition_agree() {
    let first = CandleEngine::load(&definition(BERT)).ok().unwrap();
    let second = CandleEngine::load(&definition(BERT)).ok().unwrap();
    let texts = batch(&["a b c", "c"]);
    assert_eq!(
        first.embed_batch(&texts, &id_sums).ok().unwrap(),
        second.embed_batch(&texts, &id_sums).ok().unwrap()
    );
    let left = OrtEngine::load(&definition(BERT)).ok().unwrap();
    let right = OrtEngine::load(&definition(BERT)).ok().unwrap();
    assert_eq!(
        left.embed_batch(&texts, &hidden, &mean).ok().unwrap(),
        right.embed_batch(&texts, &hidden, &mean).ok().unwrap()
    );
    let one = left.embed("", &hidden, &mean).ok().unwrap();
    assert_eq!(left.embed_batch(&batch(&[""]), &hidden, &mean).ok().unwrap(), vec![one]);
}

#[test]
fn masked_cells_never_reach_the_result() {
    let engine = OrtEngine::load(&definition("null")).ok().unwrap();
    let poisoned = |input: &OrtInput| -> Result<HiddenState<Vec<f32>>, String> {
        let mut state = hidden(input)?;
        for (t, m) in input.mask.iter().enumerate() {
            if *m == 0 {
                state.data[2 * t] = f32::NAN;
                state.data[2 * t + 1] = f32::INFINITY;
            }
        }
        Ok(state)
    };
    let texts = batch(&["a b c", "c"]);
    assert_eq!(
        engine.embed_batch(&texts, &poisoned, &mean).ok().unwrap(),
        engine.embed_batch(&texts, &hidden, &mean).ok().unwrap()
    );
}

fn masked_means(input: &ModelInput) -> Result<Vec<Vec<f32>>, String> {
    let mut out = Vec::new();
    for s in 0..input.n {
        let mut sum = 0f32;
        let mut count = 0f32;
        for t in s * input.seq..(s + 1) * input.seq {
            sum += input.ids[t] as f32 * input.mask[t] as f32;
            count += input.mask[t] as f32;
        }
        let divisor = if count == 0.0 { 1.0 } else { count };
        out.push(vec![sum / divisor, -sum / divisor]);
    }
    Ok(out)
}

#[test]
fn both_engines_pool_alike() {
    let candle = CandleEngine::load(&definition(BERT)).ok().unwrap();
    let ort = OrtEngine::load(&definition(BERT)).ok().unwrap();
    let texts = batch(&["a b c", "", "c"]);
    assert_eq!(
        candle.embed_batch(&texts, &masked_means).ok().unwrap(),
        ort.embed_batch(&texts, &hidden, &mean).ok().unwrap()
    );
}

#[test]
fn sentence_model_definitions_load() {
    let text = r###"{"version":"1.0",
        "truncation":{"max_length":128,"strategy":"LongestFirst","stride":0},
        "padding":{"strategy":{"Fixed":128},"direction":"Right","pad_to_multiple_of":null,
            "pad_id":0,"pad_type_id":0,"pad_token":"[PAD]"},
        "added_tokens":[
            {"id":0,"special":true,"content":"[PAD]","single_word":false,"lstrip":false,"rstrip":false,"normalized":false},
            {"id":4,"special":true,"content":"[MASK]","single_word":false,"lstrip":true,"rstrip":false,"normalized":false}],
        "normalizer":{"type":"BertNormalizer","clean_text":true,"handle_chinese_chars":true,"strip_accents":null,"lowercase":true},
        "pre_tokenizer":{"type":"BertPreTokenizer"},
        "post_processor":{"type":"TemplateProcessing",
            "single":[{"SpecialToken":{"id":"[CLS]","type_id":0}},{"Sequence":{"id":"A","type_id":0}},{"SpecialToken":{"id":"[SEP]","type_id":0}}],
            "pair":[{"SpecialToken":{"id":"[CLS]","type_id":0}},{"Sequence":{"id":"A","type_id":0}},{"SpecialToken":{"id":"[SEP]","type_id":0}},{"Sequence":{"id":"B","type_id":1}},{"SpecialToken":{"id":"[SEP]","type_id":1}}],
            "special_tokens":{"[CLS]":{"id":"[CLS]","ids":[2],"tokens":["[CLS]"]},"[SEP]":{"id":"[SEP]","ids":[3],"tokens":["[SEP]"]}}},
        "decoder":{"type":"WordPiece","prefix":"##","cleanup":true},
        "model":{"unk_token":"[UNK]","continuing_subword_prefix":"##","max_input_chars_per_word":100,
            "vocab":{"[PAD]":0,"[UNK]":1,"[CLS]":2,"[SEP]":3,"[MASK]":4,"iris":5,"dark":6,"##s":7,".":8}}}"###;
    let encoder = TextEncoder::load(text).ok().unwrap();
    let rows = encoder.encode(&batch(&["Dark iris.", "IRISs", "plain  [MASK]", ""])).unwrap();
    let ids: Vec<Vec<u32>> = rows.iter().map(|r| r.ids.clone()).collect();
    assert_eq!(
        ids,
        vec![
            vec![2, 6, 5, 8, 3],
            vec![2, 5, 7, 3, 0],
            vec![2, 1, 4, 3, 0],
            vec![2, 3, 0, 0, 0],
        ]
    );
    assert_eq!(rows[3].mask, vec![1, 1, 0, 0, 0]);
}
