//! Embedding engines: everything but the arithmetic of the model.
//!
//! An engine turns sentences into one embedding each. The forward pass of the model, and for
//! ONNX the sums of the pooling, are handed in: they compute with floating point numbers.
use crate::encode::{
    batch_holds_its_rows, encoded_rows_fill, encoding, input_of, loads, rows_view, LoadError, ModelInput, TextEncoder,
    TokenRow,
};
use crate::pooling::{
    plan_is_the_unmasked_tokens, pool_plan, pools, row_terms, terms_are_unmasked, PoolRow, PoolTerm,
};
use crate::text::texts;
use vstd::prelude::*;

verus! {

/// Why a batch could not be embedded.
#[derive(Debug)]
pub enum EmbedError<E> {
    /// The tokenizer failed.
    Tokenize(String),
    /// The encoded rows do not fill a rectangle.
    Shape,
    /// The model failed.
    Model(E),
}

/// What a batch of texts can come to with a model that answers a whole batch at once: the
/// tokenizer fails, or the model is run on the encoded batch and its answer is handed on.
pub open spec fn batch_outcome<T, E, R: Fn(&ModelInput) -> Result<Vec<T>, E>>(
    source: Seq<char>,
    batch: Seq<Seq<char>>,
    run: R,
    r: Result<Vec<T>, EmbedError<E>>,
) -> bool {
    match encoding(source, true, true, batch, true) {
        None => r matches Err(EmbedError::Tokenize(_)),
        Some(rows) => rows.len() == batch.len() && answered(rows, run, r),
    }
}

/// Whether a model was run on some rows and its answer handed on.
pub open spec fn answered<T, E, R: Fn(&ModelInput) -> Result<Vec<T>, E>>(
    rows: Seq<(Seq<u32>, Seq<u32>)>,
    run: R,
    r: Result<Vec<T>, EmbedError<E>>,
) -> bool {
    exists|input: ModelInput, answer: Result<Vec<T>, E>| #[trigger]
        input_of(rows, input) && #[trigger] call_ensures(run, (&input,), answer) && r == (
        match answer {
            Ok(out) => Ok::<Vec<T>, EmbedError<E>>(out),
            Err(e) => Err(EmbedError::Model(e)),
        })
}

/// Whether a model that answers has one embedding for each row of the batch.
pub open spec fn one_each<T, E, R: Fn(&ModelInput) -> Result<Vec<T>, E>>(run: R) -> bool {
    forall|input: &ModelInput, out: Vec<T>| #[trigger]
        call_ensures(run, (input,), Ok::<Vec<T>, E>(out)) ==> out@.len() == input.n
}

/// Engine on the Candle framework.
pub struct CandleEngine {
    name: String,
    encoder: TextEncoder,
}

impl CandleEngine {
    /// The name under which the engine is reported.
    pub closed spec fn label(&self) -> Seq<char> {
        self.name@
    }

    /// The JSON definition of its tokenizer.
    pub closed spec fn source(&self) -> Seq<char> {
        self.encoder.source()
    }

    /// Sets the engine up on the CPU from the tokenizer definition of its model.
    pub fn load(tokenizer_json: &str) -> (r: Result<CandleEngine, LoadError>)
        ensures
            loads(tokenizer_json@, match r {
                Ok(_) => None,
                Err(e) => Some(e),
            }),
            r matches Ok(engine) ==> engine.label() == "candle-cpu"@ && engine.source()
                == tokenizer_json@,
    {
        match TextEncoder::load(tokenizer_json) {
            Ok(encoder) => Ok(CandleEngine { name: "candle-cpu".to_string(), encoder }),
            Err(e) => Err(e),
        }
    }

    /// The name under which the engine is reported.
    pub fn name(&self) -> (r: &str)
        ensures
            r@ == self.label(),
    {
        self.name.as_str()
    }

    /// Embeds a batch that is not empty.
    pub fn forward<T, E, R: Fn(&ModelInput) -> Result<Vec<T>, E>>(
        &self,
        batch: &Vec<String>,
        run: &R,
    ) -> (r: Result<Vec<T>, EmbedError<E>>)
        requires
            batch@.len() > 0,
            forall|input: &ModelInput| call_requires(*run, (input,)),
            one_each(*run),
        ensures
            batch_outcome(self.source(), texts(batch@), *run, r),
            r matches Ok(out) ==> out@.len() == batch@.len(),
    {
        let encoded: Result<Vec<TokenRow>, String> = self.encoder.encode(batch);
        match encoded {
            Err(message) => Err(EmbedError::Tokenize(message)),
            Ok(rows) => {
                proof {
                    encoded_rows_fill(rows@);
                }
                match ModelInput::prepare(&rows) {
                    None => Err(EmbedError::Shape),
                    Some(input) => {
                        let answer: Result<Vec<T>, E> = run(&input);
                        proof {
                            assert(encoding(self.source(), true, true, texts(batch@), true) == Some(
                                rows_view(rows@),
                            ));
                            assert(input_of(rows_view(rows@), input));
                            assert(call_ensures(*run, (&input,), answer));
                        }
                        match answer {
                            Ok(out) => Ok(out),
                            Err(e) => Err(EmbedError::Model(e)),
                        }
                    },
                }
            },
        }
    }

    /// Embeds one sentence: the first embedding of the batch that holds it alone.
    pub fn embed<T, E, R: Fn(&ModelInput) -> Result<Vec<T>, E>>(&self, text: &str, run: &R) -> (r:
        Result<T, EmbedError<E>>)
        requires
            forall|input: &ModelInput| call_requires(*run, (input,)),
            one_each(*run),
        ensures
            exists|all: Result<Vec<T>, EmbedError<E>>|
                #![trigger batch_outcome(self.source(), seq![text@], *run, all)]
                batch_outcome(self.source(), seq![text@], *run, all) && r == first_of(all),
    {
        let batch: Vec<String> = vec![text.to_string()];
        proof {
            assert(texts(batch@) == seq![text@]);
        }
        let all: Result<Vec<T>, EmbedError<E>> = self.forward(&batch, run);
        match all {
            Ok(mut out) => {
                let first: T = out.remove(0);
                Ok(first)
            },
            Err(e) => Err(e),
        }
    }

    /// Embeds a batch; an empty one without running the model.
    pub fn embed_batch<T, E, R: Fn(&ModelInput) -> Result<Vec<T>, E>>(
        &self,
        batch: &Vec<String>,
        run: &R,
    ) -> (r: Result<Vec<T>, EmbedError<E>>)
        requires
            forall|input: &ModelInput| call_requires(*run, (input,)),
            one_each(*run),
        ensures
            batch@.len() == 0 ==> (r matches Ok(out) && out@.len() == 0),
            batch@.len() > 0 ==> batch_outcome(self.source(), texts(batch@), *run, r),
            r matches Ok(out) ==> out@.len() == batch@.len(),
    {
        if batch.len() == 0 {
            return Ok(Vec::new());
        }
        self.forward(batch, run)
    }
}

/// The first embedding of a batch, or its error.
pub open spec fn first_of<T, E>(all: Result<Vec<T>, EmbedError<E>>) -> Result<T, EmbedError<E>> {
    match all {
        Ok(out) => Ok(out@[0]),
        Err(e) => Err(e),
    }
}

/// A batch as ONNX Runtime takes it.
#[derive(Debug)]
pub struct OrtInput {
    pub n: usize,
    pub seq: usize,
    pub ids: Vec<i64>,
    pub mask: Vec<i64>,
    pub token_types: Vec<i64>,
}

/// The last hidden state of a model: `len` numbers, `size` of them to a token.
#[derive(Debug)]
pub struct HiddenState<H> {
    pub data: H,
    pub len: usize,
    pub size: usize,
}

/// The same integers, as wider ones.
pub open spec fn widened(v: Seq<u32>) -> Seq<i64> {
    v.map_values(|x: u32| x as i64)
}

fn widen(v: &Vec<u32>) -> (r: Vec<i64>)
    ensures
        r@ == widened(v@),
{
    let mut r: Vec<i64> = Vec::new();
    let mut i: usize = 0;
    while i < v.len()
        invariant
            i <= v@.len(),
            r@ == widened(v@.take(i as int)),
        decreases v@.len() - i,
    {
        r.push(v[i] as i64);
        assert(v@.take(i + 1) == v@.take(i as int).push(v@[i as int]));
        i += 1;
    }
    assert(v@.take(i as int) == v@);
    r
}

/// Whether the ONNX batch holds the same cells as a batch.
pub open spec fn widens(input: ModelInput, wide: OrtInput) -> bool {
    &&& wide.n == input.n
    &&& wide.seq == input.seq
    &&& wide.ids@ == widened(input.ids@)
    &&& wide.mask@ == widened(input.mask@)
    &&& wide.token_types@ == widened(input.token_types@)
}

/// Whether an embedding came of pooling the runs that the plan of sentence `s` names.
pub open spec fn pooled_at<T, H, P: Fn(&H, &PoolRow, usize) -> T>(
    mask: Seq<u32>,
    s: int,
    seq: int,
    hidden: HiddenState<H>,
    pool: P,
    embedding: T,
) -> bool {
    exists|row: PoolRow|
        #[trigger] pools(mask, s, seq, hidden.size as int, row) && call_ensures(
            pool,
            (&hidden.data, &row, hidden.size),
            embedding,
        )
}

/// What the model's answer to a batch comes to: its error, or each sentence pooled.
pub open spec fn pooled_outcome<T, H, E, P: Fn(&H, &PoolRow, usize) -> T>(
    input: ModelInput,
    answer: Result<HiddenState<H>, E>,
    pool: P,
    r: Result<Vec<T>, EmbedError<E>>,
) -> bool {
    match answer {
        Err(e) => r == Err::<Vec<T>, EmbedError<E>>(EmbedError::Model(e)),
        Ok(hidden) => r matches Ok(out) && out@.len() == input.n && forall|s: int|
            0 <= s < input.n ==> pooled_at(
                input.mask@,
                s,
                input.seq as int,
                hidden,
                pool,
                #[trigger] out@[s],
            ),
    }
}

/// What a batch of texts can come to with a model that answers with its hidden state.
pub open spec fn hidden_outcome<
    T,
    H,
    E,
    R: Fn(&OrtInput) -> Result<HiddenState<H>, E>,
    P: Fn(&H, &PoolRow, usize) -> T,
>(
    source: Seq<char>,
    batch: Seq<Seq<char>>,
    run: R,
    pool: P,
    r: Result<Vec<T>, EmbedError<E>>,
) -> bool {
    match encoding(source, true, true, batch, true) {
        None => r matches Err(EmbedError::Tokenize(_)),
        Some(rows) => rows.len() == batch.len() && pooled_answer(rows, run, pool, r),
    }
}

/// Whether a session was run on some rows and its answer pooled.
pub open spec fn pooled_answer<
    T,
    H,
    E,
    R: Fn(&OrtInput) -> Result<HiddenState<H>, E>,
    P: Fn(&H, &PoolRow, usize) -> T,
>(
    rows: Seq<(Seq<u32>, Seq<u32>)>,
    run: R,
    pool: P,
    r: Result<Vec<T>, EmbedError<E>>,
) -> bool {
    exists|input: ModelInput, wide: OrtInput, answer: Result<HiddenState<H>, E>| #[trigger]
        input_of(rows, input) && #[trigger] widens(input, wide) && #[trigger] call_ensures(
            run,
            (&wide,),
            answer,
        ) && pooled_outcome(input, answer, pool, r)
}

/// Whether a hidden state has room for `size` numbers to each token of the batch.
pub open spec fn covers<H>(wide: OrtInput, hidden: HiddenState<H>) -> bool {
    wide.n * wide.seq * hidden.size <= hidden.len
}

/// Engine on ONNX Runtime.
pub struct OrtEngine {
    name: String,
    encoder: TextEncoder,
}

impl OrtEngine {
    /// The name under which the engine is reported.
    pub closed spec fn label(&self) -> Seq<char> {
        self.name@
    }

    /// The JSON definition of its tokenizer.
    pub closed spec fn source(&self) -> Seq<char> {
        self.encoder.source()
    }

    /// Sets the engine up on the CPU execution provider.
    pub fn load(tokenizer_json: &str) -> (r: Result<OrtEngine, LoadError>)
        ensures
            OrtEngine::loaded("ort-cpu"@, tokenizer_json@, r),
    {
        OrtEngine::load_with("ort-cpu", tokenizer_json)
    }

    /// Sets the engine up on the CoreML execution provider.
    pub fn load_coreml(tokenizer_json: &str) -> (r: Result<OrtEngine, LoadError>)
        ensures
            OrtEngine::loaded("ort-coreml"@, tokenizer_json@, r),
    {
        OrtEngine::load_with("ort-coreml", tokenizer_json)
    }

    /// What setting an engine up under a name comes to.
    pub open spec fn loaded(
        name: Seq<char>,
        json: Seq<char>,
        r: Result<OrtEngine, LoadError>,
    ) -> bool {
        match r {
            Ok(engine) => loads(json, None) && engine.label() == name && engine.source() == json,
            Err(e) => loads(json, Some(e)),
        }
    }

    /// Sets an engine up under a name.
    pub fn load_with(name: &str, tokenizer_json: &str) -> (r: Result<OrtEngine, LoadError>)
        ensures
            OrtEngine::loaded(name@, tokenizer_json@, r),
    {
        match TextEncoder::load(tokenizer_json) {
            Ok(encoder) => Ok(OrtEngine { name: name.to_string(), encoder }),
            Err(e) => Err(e),
        }
    }

    /// The name under which the engine is reported.
    pub fn name(&self) -> (r: &str)
        ensures
            r@ == self.label(),
    {
        self.name.as_str()
    }

    /// Embeds a batch that is not empty: encodes it, runs the model, and pools the hidden
    /// state of each sentence over its unmasked tokens.
    pub fn forward<
        T,
        H,
        E,
        R: Fn(&OrtInput) -> Result<HiddenState<H>, E>,
        P: Fn(&H, &PoolRow, usize) -> T,
    >(&self, batch: &Vec<String>, run: &R, pool: &P) -> (r: Result<Vec<T>, EmbedError<E>>)
        requires
            batch@.len() > 0,
            forall|wide: &OrtInput| call_requires(*run, (wide,)),
            forall|wide: &OrtInput, hidden: HiddenState<H>|
                call_ensures(*run, (wide,), Ok::<HiddenState<H>, E>(hidden)) ==> covers(
                    *wide,
                    hidden,
                ),
            forall|data: &H, row: &PoolRow, size: usize| call_requires(*pool, (data, row, size)),
        ensures
            hidden_outcome(self.source(), texts(batch@), *run, *pool, r),
    {
        let encoded: Result<Vec<TokenRow>, String> = self.encoder.encode(batch);
        match encoded {
            Err(message) => Err(EmbedError::Tokenize(message)),
            Ok(rows) => {
                proof {
                    encoded_rows_fill(rows@);
                }
                match ModelInput::prepare(&rows) {
                    None => Err(EmbedError::Shape),
                    Some(input) => {
                        let wide: OrtInput = OrtInput {
                            n: input.n,
                            seq: input.seq,
                            ids: widen(&input.ids),
                            mask: widen(&input.mask),
                            token_types: widen(&input.token_types),
                        };
                        let answer: Result<HiddenState<H>, E> = run(&wide);
                        let ghost given = answer;
                        let r: Result<Vec<T>, EmbedError<E>> = match answer {
                            Ok(hidden) => {
                                assert(call_ensures(
                                    *run,
                                    (&wide,),
                                    Ok::<HiddenState<H>, E>(hidden),
                                ));
                                assert(covers(wide, hidden));
                                Ok(OrtEngine::pool_all(&input, &hidden, pool))
                            },
                            Err(e) => Err(EmbedError::Model(e)),
                        };
                        proof {
                            assert(encoding(self.source(), true, true, texts(batch@), true) == Some(
                                rows_view(rows@),
                            ));
                            assert(input_of(rows_view(rows@), input));
                            assert(widens(input, wide));
                            assert(call_ensures(*run, (&wide,), given));
                            assert(pooled_outcome(input, given, *pool, r));
                        }
                        r
                    },
                }
            },
        }
    }

    /// Pools the hidden state of each sentence over its unmasked tokens.
    pub fn pool_all<T, H, P: Fn(&H, &PoolRow, usize) -> T>(
        input: &ModelInput,
        hidden: &HiddenState<H>,
        pool: &P,
    ) -> (out: Vec<T>)
        requires
            input.mask@.len() == input.n * input.seq,
            input.n * input.seq * hidden.size <= hidden.len,
            forall|data: &H, row: &PoolRow, size: usize| call_requires(*pool, (data, row, size)),
        ensures
            out@.len() == input.n,
            forall|s: int|
                0 <= s < input.n ==> pooled_at(
                    input.mask@,
                    s,
                    input.seq as int,
                    *hidden,
                    *pool,
                    #[trigger] out@[s],
                ),
    {
        let plan: Vec<PoolRow> = pool_plan(&input.mask, input.n, input.seq, hidden.size);
        let mut out: Vec<T> = Vec::new();
        let mut s: usize = 0;
        while s < plan.len()
            invariant
                s <= plan@.len(),
                plan@.len() == input.n,
                forall|k: int|
                    0 <= k < input.n ==> pools(
                        input.mask@,
                        k,
                        input.seq as int,
                        hidden.size as int,
                        #[trigger] plan@[k],
                    ),
                forall|data: &H, row: &PoolRow, size: usize|
                    call_requires(*pool, (data, row, size)),
                out@.len() == s,
                forall|k: int|
                    0 <= k < s ==> pooled_at(
                        input.mask@,
                        k,
                        input.seq as int,
                        *hidden,
                        *pool,
                        #[trigger] out@[k],
                    ),
            decreases plan@.len() - s,
        {
            let embedding: T = pool(&hidden.data, &plan[s], hidden.size);
            proof {
                assert(pools(
                    input.mask@,
                    s as int,
                    input.seq as int,
                    hidden.size as int,
                    plan@[s as int],
                ));
                assert(call_ensures(*pool, (&hidden.data, &plan@[s as int], hidden.size), embedding));
            }
            out.push(embedding);
            s += 1;
        }
        out
    }

    /// Embeds one sentence: the first embedding of the batch that holds it alone.
    pub fn embed<
        T,
        H,
        E,
        R: Fn(&OrtInput) -> Result<HiddenState<H>, E>,
        P: Fn(&H, &PoolRow, usize) -> T,
    >(&self, text: &str, run: &R, pool: &P) -> (r: Result<T, EmbedError<E>>)
        requires
            forall|wide: &OrtInput| call_requires(*run, (wide,)),
            forall|wide: &OrtInput, hidden: HiddenState<H>|
                call_ensures(*run, (wide,), Ok::<HiddenState<H>, E>(hidden)) ==> covers(
                    *wide,
                    hidden,
                ),
            forall|data: &H, row: &PoolRow, size: usize| call_requires(*pool, (data, row, size)),
        ensures
            exists|all: Result<Vec<T>, EmbedError<E>>|
                #![trigger hidden_outcome(self.source(), seq![text@], *run, *pool, all)]
                hidden_outcome(self.source(), seq![text@], *run, *pool, all) && r == first_of(all),
    {
        let batch: Vec<String> = vec![text.to_string()];
        proof {
            assert(texts(batch@) == seq![text@]);
        }
        let all: Result<Vec<T>, EmbedError<E>> = self.forward(&batch, run, pool);
        match all {
            Ok(mut out) => {
                let first: T = out.remove(0);
                Ok(first)
            },
            Err(e) => Err(e),
        }
    }

    /// Embeds a batch; an empty one without running the model.
    pub fn embed_batch<
        T,
        H,
        E,
        R: Fn(&OrtInput) -> Result<HiddenState<H>, E>,
        P: Fn(&H, &PoolRow, usize) -> T,
    >(&self, batch: &Vec<String>, run: &R, pool: &P) -> (r: Result<Vec<T>, EmbedError<E>>)
        requires
            forall|wide: &OrtInput| call_requires(*run, (wide,)),
            forall|wide: &OrtInput, hidden: HiddenState<H>|
                call_ensures(*run, (wide,), Ok::<HiddenState<H>, E>(hidden)) ==> covers(
                    *wide,
                    hidden,
                ),
            forall|data: &H, row: &PoolRow, size: usize| call_requires(*pool, (data, row, size)),
        ensures
            batch@.len() == 0 ==> (r matches Ok(out) && out@.len() == 0),
            batch@.len() > 0 ==> hidden_outcome(self.source(), texts(batch@), *run, *pool, r),
    {
        if batch.len() == 0 {
            return Ok(Vec::new());
        }
        self.forward(batch, run, pool)
    }
}

/// Whether two batches hold the same.
pub open spec fn same_input(a: ModelInput, b: ModelInput) -> bool {
    a.n == b.n && a.seq == b.seq && a.ids@ == b.ids@ && a.mask@ == b.mask@ && a.token_types@
        == b.token_types@
}

/// Whether a model answers the same batch alike.
pub open spec fn steady_run<T, E, R: Fn(&ModelInput) -> Result<Vec<T>, E>>(run: R) -> bool {
    forall|a: ModelInput, b: ModelInput, x: Result<Vec<T>, E>, y: Result<Vec<T>, E>| #[trigger]
        call_ensures(run, (&a,), x) && #[trigger] call_ensures(run, (&b,), y) && same_input(a, b)
            ==> x == y
}

/// Whether two results are the same: the same embeddings, the tokenizer's error in both, or the
/// same error of the model.
pub open spec fn same_result<T, E>(
    a: Result<Vec<T>, EmbedError<E>>,
    b: Result<Vec<T>, EmbedError<E>>,
) -> bool {
    match (a, b) {
        (Ok(x), Ok(y)) => x@ == y@,
        (Err(EmbedError::Tokenize(_)), Err(EmbedError::Tokenize(_))) => true,
        (Err(EmbedError::Model(x)), Err(EmbedError::Model(y))) => x == y,
        _ => false,
    }
}

/// Two Candle engines of one definition embed the same texts alike, where the model is a
/// function. So do two calls of one engine.
pub proof fn same_definition_same_embeddings<T, E, R: Fn(&ModelInput) -> Result<Vec<T>, E>>(
    first: CandleEngine,
    second: CandleEngine,
    batch: Seq<Seq<char>>,
    run: R,
    a: Result<Vec<T>, EmbedError<E>>,
    b: Result<Vec<T>, EmbedError<E>>,
)
    requires
        first.source() == second.source(),
        steady_run(run),
        batch_outcome(first.source(), batch, run, a),
        batch_outcome(second.source(), batch, run, b),
    ensures
        same_result(a, b),
{
    lemma_same_batch(first.source(), batch, run, a, b);
}

proof fn lemma_same_batch<T, E, R: Fn(&ModelInput) -> Result<Vec<T>, E>>(
    source: Seq<char>,
    batch: Seq<Seq<char>>,
    run: R,
    a: Result<Vec<T>, EmbedError<E>>,
    b: Result<Vec<T>, EmbedError<E>>,
)
    requires
        steady_run(run),
        batch_outcome(source, batch, run, a),
        batch_outcome(source, batch, run, b),
    ensures
        same_result(a, b),
{
}

/// Embedding one sentence with Candle is embedding the batch that holds it alone: one succeeds
/// exactly when the other does, and then the batch has this one embedding. The model must
/// be a function and answer with one embedding for each row.
pub proof fn embed_is_a_batch_of_one<T, E, R: Fn(&ModelInput) -> Result<Vec<T>, E>>(
    source: Seq<char>,
    text: Seq<char>,
    run: R,
    all: Result<Vec<T>, EmbedError<E>>,
    b: Result<Vec<T>, EmbedError<E>>,
)
    requires
        steady_run(run),
        one_each(run),
        batch_outcome(source, seq![text], run, all),
        batch_outcome(source, seq![text], run, b),
    ensures
        first_of(all) is Ok <==> b is Ok,
        b matches Ok(out) ==> out@ =~= seq![first_of(all)->Ok_0],
{
    lemma_same_batch(source, seq![text], run, all, b);
}

/// Whether two ONNX batches hold the same.
pub open spec fn same_wide(a: OrtInput, b: OrtInput) -> bool {
    a.n == b.n && a.seq == b.seq && a.ids@ == b.ids@ && a.mask@ == b.mask@ && a.token_types@
        == b.token_types@
}

/// Whether a session answers the same batch alike.
pub open spec fn steady_session<H, E, R: Fn(&OrtInput) -> Result<HiddenState<H>, E>>(
    run: R,
) -> bool {
    forall|
        a: OrtInput,
        b: OrtInput,
        x: Result<HiddenState<H>, E>,
        y: Result<HiddenState<H>, E>,
    | #[trigger]
        call_ensures(run, (&a,), x) && #[trigger] call_ensures(run, (&b,), y) && same_wide(a, b)
            ==> x == y
}

/// Whether pooling is determined by the cells of the runs in its plan: `cell` says what a hidden
/// state holds where.
pub open spec fn reads_runs<T, H, C, P: Fn(&H, &PoolRow, usize) -> T>(
    pool: P,
    cell: spec_fn(H, int) -> C,
) -> bool {
    forall|g: H, h: H, p: PoolRow, q: PoolRow, size: usize, x: T, y: T| #[trigger]
        call_ensures(pool, (&g, &p, size), x) && #[trigger] call_ensures(pool, (&h, &q, size), y)
            && p.terms@ == q.terms@ && p.denominator == q.denominator && agree_on_runs(
            g,
            h,
            p.terms@,
            size,
            cell,
        ) ==> x == y
}

/// Whether two hidden states agree on the runs of some terms.
pub open spec fn agree_on_runs<H, C>(
    g: H,
    h: H,
    terms: Seq<PoolTerm>,
    size: usize,
    cell: spec_fn(H, int) -> C,
) -> bool {
    forall|k: int, c: int|
        0 <= k < terms.len() && 0 <= c < size ==> #[trigger] cell(g, terms[k].base + c) == cell(
            h,
            terms[k].base + c,
        )
}

/// Whether two hidden states agree at every token that the mask does not hide.
pub open spec fn agree_unmasked<H, C>(
    mask: Seq<u32>,
    n: int,
    seq: int,
    size: int,
    g: H,
    h: H,
    cell: spec_fn(H, int) -> C,
) -> bool {
    forall|s: int, t: int, c: int|
        0 <= s < n && 0 <= t < seq && 0 <= c < size && mask[s * seq + t] != 0 ==> #[trigger] cell(
            g,
            (s * seq + t) * size + c,
        ) == cell(h, (s * seq + t) * size + c)
}

/// What the model yields at masked positions never reaches the embeddings: two hidden states
/// that agree at every unmasked token pool to the same, whatever they hold elsewhere. The pool
/// must read no more than the runs of its plan.
pub proof fn masked_cells_are_ignored<T, H, C, P: Fn(&H, &PoolRow, usize) -> T>(
    mask: Seq<u32>,
    n: int,
    seq: int,
    first: HiddenState<H>,
    second: HiddenState<H>,
    pool: P,
    cell: spec_fn(H, int) -> C,
    s: int,
    x: T,
    y: T,
)
    requires
        0 <= s < n,
        0 <= seq,
        first.size == second.size,
        n * seq * first.size <= usize::MAX,
        agree_unmasked(mask, n, seq, first.size as int, first.data, second.data, cell),
        reads_runs(pool, cell),
        pooled_at(mask, s, seq, first, pool, x),
        pooled_at(mask, s, seq, second, pool, y),
    ensures
        x == y,
{
    let size = first.size;
    let p = choose|row: PoolRow|
        #[trigger] pools(mask, s, seq, size as int, row) && call_ensures(
            pool,
            (&first.data, &row, size),
            x,
        );
    let q = choose|row: PoolRow|
        #[trigger] pools(mask, s, seq, size as int, row) && call_ensures(
            pool,
            (&second.data, &row, size),
            y,
        );
    let terms = row_terms(mask, s, seq, size as int, seq);
    assert forall|k: int, c: int|
        0 <= k < terms.len() && 0 <= c < size implies #[trigger] cell(
        first.data,
        terms[k].base + c,
    ) == cell(second.data, terms[k].base + c) by {
        assert(terms.contains(terms[k]));
        terms_are_unmasked(mask, s, seq, size as int, seq, terms[k]);
        let t = choose|t: int|
            0 <= t < seq && mask[s * seq + t] != 0 && terms[k] == (PoolTerm {
                base: ((s * seq + t) * (size as int)) as usize,
                weight: #[trigger] mask[s * seq + t],
            });
        let at = s * seq + t;
        assert(0 <= at < n * seq) by (nonlinear_arith)
            requires
                at == s * seq + t,
                0 <= s < n,
                0 <= t < seq,
        ;
        assert(0 <= at * size <= n * seq * size) by (nonlinear_arith)
            requires
                0 <= at < n * seq,
                0 <= size,
        ;
        assert(terms[k].base == at * size);
        assert(cell(first.data, (s * seq + t) * (size as int) + c) == cell(
            second.data,
            (s * seq + t) * (size as int) + c,
        ));
    }
    assert(agree_on_runs(first.data, second.data, p.terms@, size, cell));
}

/// Two ONNX engines of one definition embed the same texts alike, where the session is
/// a function and the pool reads no more than the runs of its plan. So do two calls of one
/// engine.
pub proof fn same_definition_same_pooling<
    T,
    H,
    C,
    E,
    R: Fn(&OrtInput) -> Result<HiddenState<H>, E>,
    P: Fn(&H, &PoolRow, usize) -> T,
>(
    first: OrtEngine,
    second: OrtEngine,
    batch: Seq<Seq<char>>,
    run: R,
    pool: P,
    cell: spec_fn(H, int) -> C,
    a: Result<Vec<T>, EmbedError<E>>,
    b: Result<Vec<T>, EmbedError<E>>,
)
    requires
        first.source() == second.source(),
        steady_session(run),
        reads_runs(pool, cell),
        hidden_outcome(first.source(), batch, run, pool, a),
        hidden_outcome(second.source(), batch, run, pool, b),
    ensures
        same_result(a, b),
{
    lemma_same_hidden(first.source(), batch, run, pool, cell, a, b);
}

proof fn lemma_same_hidden<
    T,
    H,
    C,
    E,
    R: Fn(&OrtInput) -> Result<HiddenState<H>, E>,
    P: Fn(&H, &PoolRow, usize) -> T,
>(
    source: Seq<char>,
    batch: Seq<Seq<char>>,
    run: R,
    pool: P,
    cell: spec_fn(H, int) -> C,
    a: Result<Vec<T>, EmbedError<E>>,
    b: Result<Vec<T>, EmbedError<E>>,
)
    requires
        steady_session(run),
        reads_runs(pool, cell),
        hidden_outcome(source, batch, run, pool, a),
        hidden_outcome(source, batch, run, pool, b),
    ensures
        same_result(a, b),
{
    if let Some(rows) = encoding(source, true, true, batch, true) {
        let (input, wide, answer) = choose|
            input: ModelInput,
            wide: OrtInput,
            answer: Result<HiddenState<H>, E>,
        |
            #[trigger] input_of(rows, input) && #[trigger] widens(input, wide)
                && #[trigger] call_ensures(run, (&wide,), answer) && pooled_outcome(
                input,
                answer,
                pool,
                a,
            );
        let (input2, wide2, answer2) = choose|
            input: ModelInput,
            wide: OrtInput,
            answer: Result<HiddenState<H>, E>,
        |
            #[trigger] input_of(rows, input) && #[trigger] widens(input, wide)
                && #[trigger] call_ensures(run, (&wide,), answer) && pooled_outcome(
                input,
                answer,
                pool,
                b,
            );
        assert(same_wide(wide, wide2));
        assert(answer == answer2);
        if let Ok(hidden) = answer {
            let x = a->Ok_0;
            let y = b->Ok_0;
            assert forall|s: int| 0 <= s < x@.len() implies x@[s] == y@[s] by {
                assert(pooled_at(input.mask@, s, input.seq as int, hidden, pool, x@[s]));
                assert(pooled_at(input2.mask@, s, input2.seq as int, hidden, pool, y@[s]));
                lemma_same_pool(input.mask@, s, input.seq as int, hidden, pool, cell, x@[s], y@[s]);
            }
            assert(x@ =~= y@);
        }
    }
}

proof fn lemma_same_pool<T, H, C, P: Fn(&H, &PoolRow, usize) -> T>(
    mask: Seq<u32>,
    s: int,
    seq: int,
    hidden: HiddenState<H>,
    pool: P,
    cell: spec_fn(H, int) -> C,
    x: T,
    y: T,
)
    requires
        reads_runs(pool, cell),
        pooled_at(mask, s, seq, hidden, pool, x),
        pooled_at(mask, s, seq, hidden, pool, y),
    ensures
        x == y,
{
    let p = choose|row: PoolRow|
        #[trigger] pools(mask, s, seq, hidden.size as int, row) && call_ensures(
            pool,
            (&hidden.data, &row, hidden.size),
            x,
        );
    assert(agree_on_runs(hidden.data, hidden.data, p.terms@, hidden.size, cell));
}

/// Embedding one sentence with ONNX is embedding the batch that holds it alone: one succeeds
/// exactly when the other does, and then the batch has this one embedding. The session
/// must be a function, and the pool must read no more than the runs of its plan.
pub proof fn pooled_embed_is_a_batch_of_one<
    T,
    H,
    C,
    E,
    R: Fn(&OrtInput) -> Result<HiddenState<H>, E>,
    P: Fn(&H, &PoolRow, usize) -> T,
>(
    source: Seq<char>,
    text: Seq<char>,
    run: R,
    pool: P,
    cell: spec_fn(H, int) -> C,
    all: Result<Vec<T>, EmbedError<E>>,
    b: Result<Vec<T>, EmbedError<E>>,
)
    requires
        steady_session(run),
        reads_runs(pool, cell),
        hidden_outcome(source, seq![text], run, pool, all),
        hidden_outcome(source, seq![text], run, pool, b),
    ensures
        first_of(all) is Ok <==> b is Ok,
        b matches Ok(out) ==> out@ =~= seq![first_of(all)->Ok_0],
{
    lemma_same_hidden(source, seq![text], run, pool, cell, all, b);
    one_embedding_per_text(source, seq![text], run, pool, b);
}

/// A pooled batch has one embedding for each text, in the same order, and never fails for the
/// shape of its rows.
pub proof fn one_embedding_per_text<
    T,
    H,
    E,
    R: Fn(&OrtInput) -> Result<HiddenState<H>, E>,
    P: Fn(&H, &PoolRow, usize) -> T,
>(
    source: Seq<char>,
    batch: Seq<Seq<char>>,
    run: R,
    pool: P,
    r: Result<Vec<T>, EmbedError<E>>,
)
    requires
        hidden_outcome(source, batch, run, pool, r),
    ensures
        r matches Ok(out) ==> out@.len() == batch.len(),
        !(r matches Err(EmbedError::Shape)),
{
}

/// Whether a model that pools by itself pools as the plan says: each of its embeddings is like
/// the one that `pool` makes of the hidden state that the session has for the same batch.
pub open spec fn mirrors<
    T,
    H,
    E,
    F,
    R: Fn(&ModelInput) -> Result<Vec<T>, E>,
    S: Fn(&OrtInput) -> Result<HiddenState<H>, F>,
    P: Fn(&H, &PoolRow, usize) -> T,
>(run: R, session: S, pool: P, alike: spec_fn(T, T) -> bool) -> bool {
    forall|input: ModelInput, wide: OrtInput, out: Vec<T>, hidden: HiddenState<H>, s: int, y: T|
        #[trigger] call_ensures(run, (&input,), Ok::<Vec<T>, E>(out)) && #[trigger] call_ensures(
            session,
            (&wide,),
            Ok::<HiddenState<H>, F>(hidden),
        ) && widens(input, wide) && 0 <= s < input.n && #[trigger] pooled_at(
            input.mask@,
            s,
            input.seq as int,
            hidden,
            pool,
            y,
        ) ==> alike(out@[s], y)
}

/// A Candle engine and an ONNX engine of one definition embed the same texts alike, where the
/// one's model mirrors the other's session and pool: there are as many embeddings in both, each
/// like the other. `alike` says which embeddings count as the same.
pub proof fn engines_agree<
    T,
    H,
    E,
    F,
    R: Fn(&ModelInput) -> Result<Vec<T>, E>,
    S: Fn(&OrtInput) -> Result<HiddenState<H>, F>,
    P: Fn(&H, &PoolRow, usize) -> T,
>(
    first: CandleEngine,
    second: OrtEngine,
    batch: Seq<Seq<char>>,
    run: R,
    session: S,
    pool: P,
    alike: spec_fn(T, T) -> bool,
    a: Vec<T>,
    b: Vec<T>,
)
    requires
        first.source() == second.source(),
        one_each(run),
        mirrors(run, session, pool, alike),
        batch_outcome(first.source(), batch, run, Ok::<Vec<T>, EmbedError<E>>(a)),
        hidden_outcome(second.source(), batch, session, pool, Ok::<Vec<T>, EmbedError<F>>(b)),
    ensures
        a@.len() == b@.len() == batch.len(),
        forall|s: int| 0 <= s < batch.len() ==> alike(#[trigger] a@[s], b@[s]),
{
    let source = first.source();
    let rows = encoding(source, true, true, batch, true)->Some_0;
    let (input, given) = choose|input: ModelInput, answer: Result<Vec<T>, E>|
        #[trigger] input_of(rows, input) && #[trigger] call_ensures(run, (&input,), answer)
            && Ok::<Vec<T>, EmbedError<E>>(a) == (match answer {
            Ok(out) => Ok::<Vec<T>, EmbedError<E>>(out),
            Err(e) => Err(EmbedError::Model(e)),
        });
    let (input2, wide, answer) = choose|
        input: ModelInput,
        wide: OrtInput,
        answer: Result<HiddenState<H>, F>,
    |
        #[trigger] input_of(rows, input) && #[trigger] widens(input, wide)
            && #[trigger] call_ensures(session, (&wide,), answer) && pooled_outcome(
            input,
            answer,
            pool,
            Ok::<Vec<T>, EmbedError<F>>(b),
        );
    assert(same_input(input, input2));
    assert(given == Ok::<Vec<T>, E>(a));
    let hidden = answer->Ok_0;
    assert(answer == Ok::<HiddenState<H>, F>(hidden));
    assert(widens(input, wide));
    assert forall|s: int| 0 <= s < batch.len() implies alike(#[trigger] a@[s], b@[s]) by {
        assert(pooled_at(input2.mask@, s, input2.seq as int, hidden, pool, b@[s]));
        assert(pooled_at(input.mask@, s, input.seq as int, hidden, pool, b@[s]));
    }
}

/// The session is given the encoded texts and each embedding is pooled from its own text: over
/// exactly the tokens that the text's row does not mask, once each, with their weights.
pub proof fn embeddings_pool_their_own_texts<
    T,
    H,
    E,
    R: Fn(&OrtInput) -> Result<HiddenState<H>, E>,
    P: Fn(&H, &PoolRow, usize) -> T,
>(
    source: Seq<char>,
    batch: Seq<Seq<char>>,
    run: R,
    pool: P,
    out: Vec<T>,
    rows: Seq<(Seq<u32>, Seq<u32>)>,
    width: int,
    s: int,
)
    requires
        hidden_outcome(source, batch, run, pool, Ok::<Vec<T>, EmbedError<E>>(out)),
        encoding(source, true, true, batch, true) == Some(rows),
        0 < width,
        0 <= s < batch.len(),
        forall|i: int|
            0 <= i < rows.len() ==> (#[trigger] rows[i]).0.len() == width && rows[i].1.len()
                == width,
    ensures
        out@.len() == batch.len(),
        exists|wide: OrtInput, hidden: HiddenState<H>, row: PoolRow|
            {
                &&& #[trigger] call_ensures(run, (&wide,), Ok::<HiddenState<H>, E>(hidden))
                &&& wide.n == batch.len() && wide.seq == width
                &&& forall|t: int|
                    0 <= t < width ==> #[trigger] wide.ids@[s * width + t] == rows[s].0[t]
                &&& forall|t: int|
                    0 <= t < width ==> #[trigger] wide.mask@[s * width + t] == rows[s].1[t]
                &&& forall|t: int|
                    0 <= t < width ==> #[trigger] wide.token_types@[s * width + t] == 0
                &&& #[trigger] call_ensures(pool, (&hidden.data, &row, hidden.size), out@[s])
                &&& row.terms@ == Seq::new(
                    width as nat,
                    |t: int|
                        PoolTerm {
                            base: ((s * width + t) * hidden.size as int) as usize,
                            weight: rows[s].1[t],
                        },
                ).filter(|term: PoolTerm| term.weight != 0)
            },
{
    let (input, wide, answer) = choose|
        input: ModelInput,
        wide: OrtInput,
        answer: Result<HiddenState<H>, E>,
    |
        #[trigger] input_of(rows, input) && #[trigger] widens(input, wide)
            && #[trigger] call_ensures(run, (&wide,), answer) && pooled_outcome(
            input,
            answer,
            pool,
            Ok::<Vec<T>, EmbedError<E>>(out),
        );
    let hidden = answer->Ok_0;
    assert(answer == Ok::<HiddenState<H>, E>(hidden));
    batch_holds_its_rows(rows, width as nat, input, s, 0);
    assert(pooled_at(input.mask@, s, input.seq as int, hidden, pool, out@[s]));
    let size = hidden.size as int;
    let row = choose|row: PoolRow|
        #[trigger] pools(input.mask@, s, input.seq as int, size, row) && call_ensures(
            pool,
            (&hidden.data, &row, hidden.size),
            out@[s],
        );
    assert(s * width + width <= rows.len() * width) by (nonlinear_arith)
        requires
            s + 1 <= rows.len(),
            0 < width,
    ;
    plan_is_the_unmasked_tokens(input.mask@, s, width, size, row);
    assert forall|t: int| 0 <= t < width implies wide.ids@[s * width + t] == rows[s].0[t]
        && wide.mask@[s * width + t] == rows[s].1[t] && wide.token_types@[s * width + t] == 0 && 0
        <= s * width + t < rows.len() * width by {
        batch_holds_its_rows(rows, width as nat, input, s, t);
        assert(0 <= s * width) by (nonlinear_arith)
            requires
                0 <= s,
                0 < width,
        ;
    }
    assert(Seq::new(
        width as nat,
        |t: int|
            PoolTerm { base: ((s * width + t) * size) as usize, weight: input.mask@[s * width + t] },
    ) =~= Seq::new(
        width as nat,
        |t: int|
            PoolTerm {
                base: ((s * width + t) * hidden.size as int) as usize,
                weight: rows[s].1[t],
            },
    )) by {
        assert forall|t: int| 0 <= t < width implies input.mask@[s * width + t]
            == rows[s].1[t] by {
            batch_holds_its_rows(rows, width as nat, input, s, t);
        }
    }
    assert(call_ensures(pool, (&hidden.data, &row, hidden.size), out@[s]));
}

/// Candle's model is given the encoded texts, row by row, and what it answers comes back as it is.
pub proof fn model_is_given_the_texts<T, E, R: Fn(&ModelInput) -> Result<Vec<T>, E>>(
    source: Seq<char>,
    batch: Seq<Seq<char>>,
    run: R,
    out: Vec<T>,
    rows: Seq<(Seq<u32>, Seq<u32>)>,
    width: int,
)
    requires
        batch_outcome(source, batch, run, Ok::<Vec<T>, EmbedError<E>>(out)),
        encoding(source, true, true, batch, true) == Some(rows),
        0 < width,
        batch.len() > 0,
        forall|i: int|
            0 <= i < rows.len() ==> (#[trigger] rows[i]).0.len() == width && rows[i].1.len()
                == width,
    ensures
        exists|input: ModelInput|
            {
                &&& #[trigger] call_ensures(run, (&input,), Ok::<Vec<T>, E>(out))
                &&& input.n == batch.len() && input.seq == width
                &&& forall|s: int, t: int|
                    0 <= s < batch.len() && 0 <= t < width ==> input.ids@[s * width + t]
                        == #[trigger] rows[s].0[t]
                &&& forall|s: int, t: int|
                    0 <= s < batch.len() && 0 <= t < width ==> input.mask@[s * width + t]
                        == #[trigger] rows[s].1[t]
                &&& input.token_types@ == Seq::new(
                    (batch.len() * width) as nat,
                    |i: int| 0u32,
                )
            },
{
    let (input, answer) = choose|input: ModelInput, answer: Result<Vec<T>, E>| #[trigger]
        input_of(rows, input) && #[trigger] call_ensures(run, (&input,), answer) && Ok::<
            Vec<T>,
            EmbedError<E>,
        >(out) == (match answer {
            Ok(out) => Ok::<Vec<T>, EmbedError<E>>(out),
            Err(e) => Err(EmbedError::Model(e)),
        });
    assert(answer == Ok::<Vec<T>, E>(out));
    assert forall|s: int, t: int| 0 <= s < batch.len() && 0 <= t < width implies input.ids@[s
        * width + t] == #[trigger] rows[s].0[t] by {
        batch_holds_its_rows(rows, width as nat, input, s, t);
    }
    assert forall|s: int, t: int| 0 <= s < batch.len() && 0 <= t < width implies input.mask@[s
        * width + t] == #[trigger] rows[s].1[t] by {
        batch_holds_its_rows(rows, width as nat, input, s, t);
    }
    batch_holds_its_rows(rows, width as nat, input, 0, 0);
}

/// A batch fails only where the tokenizer or the model does: with the tokenizer's error where the
/// texts cannot be encoded, and else with the error that the model gave for them.
pub proof fn failures_have_a_cause<T, E, R: Fn(&ModelInput) -> Result<Vec<T>, E>>(
    source: Seq<char>,
    batch: Seq<Seq<char>>,
    run: R,
    r: Result<Vec<T>, EmbedError<E>>,
)
    requires
        batch_outcome(source, batch, run, r),
    ensures
        encoding(source, true, true, batch, true) is None <==> r matches Err(
            EmbedError::Tokenize(_),
        ),
        r matches Err(EmbedError::Model(e)) ==> exists|input: ModelInput| #[trigger]
            call_ensures(run, (&input,), Err::<Vec<T>, E>(e)) && input.n == batch.len(),
        !(r matches Err(EmbedError::Shape)),
{
    if let Some(rows) = encoding(source, true, true, batch, true) {
        let (input, answer) = choose|input: ModelInput, answer: Result<Vec<T>, E>| #[trigger]
            input_of(rows, input) && #[trigger] call_ensures(run, (&input,), answer) && r == (
            match answer {
                Ok(out) => Ok::<Vec<T>, EmbedError<E>>(out),
                Err(e) => Err(EmbedError::Model(e)),
            });
        if let Err(EmbedError::Model(e)) = r {
            assert(answer == Err::<Vec<T>, E>(e));
        }
    }
}

/// A pooled batch fails only where the tokenizer or the session does: with the tokenizer's error
/// where the texts cannot be encoded, and else with the error that the session gave for them.
pub proof fn pooled_failures_have_a_cause<
    T,
    H,
    E,
    R: Fn(&OrtInput) -> Result<HiddenState<H>, E>,
    P: Fn(&H, &PoolRow, usize) -> T,
>(
    source: Seq<char>,
    batch: Seq<Seq<char>>,
    run: R,
    pool: P,
    r: Result<Vec<T>, EmbedError<E>>,
)
    requires
        hidden_outcome(source, batch, run, pool, r),
    ensures
        encoding(source, true, true, batch, true) is None <==> r matches Err(
            EmbedError::Tokenize(_),
        ),
        r matches Err(EmbedError::Model(e)) ==> exists|wide: OrtInput| #[trigger]
            call_ensures(run, (&wide,), Err::<HiddenState<H>, E>(e)) && wide.n == batch.len(),
        !(r matches Err(EmbedError::Shape)),
{
    if let Some(rows) = encoding(source, true, true, batch, true) {
        let (input, wide, answer) = choose|
            input: ModelInput,
            wide: OrtInput,
            answer: Result<HiddenState<H>, E>,
        |
            #[trigger] input_of(rows, input) && #[trigger] widens(input, wide)
                && #[trigger] call_ensures(run, (&wide,), answer) && pooled_outcome(
                input,
                answer,
                pool,
                r,
            );
        if let Err(EmbedError::Model(e)) = r {
            assert(answer == Err::<HiddenState<H>, E>(e));
        }
    }
}

} // verus!
