//! From sentences to the integer tensors a model takes.
use crate::definition::{admitted, json_value, read_definition, Reading};
use crate::text::texts;
use std::str::FromStr;
use tokenizers::{PostProcessor, Tokenizer};
use vstd::prelude::*;

verus! {

/// `tokenizers::Tokenizer`, carried as it is.
#[verifier::external_type_specification]
#[verifier::external_body]
pub struct ExTokenizer(Tokenizer);

/// The JSON definition that a tokenizer was read from.
pub uninterp spec fn tokenizer_source(tokenizer: Tokenizer) -> Seq<char>;

/// Whether a tokenizer pads each batch to its longest row, on the right, with the crate's
/// default padding parameters.
pub uninterp spec fn tokenizer_pads(tokenizer: Tokenizer) -> bool;

/// Whether a tokenizer cuts rows with the crate's default truncation parameters.
pub uninterp spec fn tokenizer_truncates(tokenizer: Tokenizer) -> bool;

/// Whether `Tokenizer::from_str` reads a tokenizer out of a definition that is admitted.
pub uninterp spec fn is_tokenizer_json(json: Seq<char>) -> bool;

/// How many tokens the post-processor of a definition adds to a single sentence; `None`
/// where the definition has no post-processor.
pub uninterp spec fn added_tokens(source: Seq<char>) -> Option<nat>;

/// What `encode_batch` gives with a tokenizer of the given definition and settings: the ids and
/// attention mask of each row, or `None` for an error. The kinds of models that are admitted
/// leave nothing to chance.
pub uninterp spec fn encoding(
    source: Seq<char>,
    pads: bool,
    truncates: bool,
    texts: Seq<Seq<char>>,
    add_special_tokens: bool,
) -> Option<Seq<(Seq<u32>, Seq<u32>)>>;

/// The row length of the default truncation parameters (`TruncationParams::default`).
pub const MAX_LENGTH: usize = 512;

/// Whether the tokens that a definition adds leave room within the row length.
pub open spec fn leaves_room(source: Seq<char>) -> bool {
    match added_tokens(source) {
        None => true,
        Some(n) => n <= MAX_LENGTH,
    }
}

/// `Tokenizer::from_str` reads a JSON definition. Which of those that are admitted it accepts
/// is named and not stated; the tokenizer that comes back is the one that the text defines.
#[verifier::external_body]
fn tokenizer_from_str(json: &str) -> (r: Result<Tokenizer, String>)
    requires
        admitted(json@),
    ensures
        r is Ok <==> is_tokenizer_json(json@),
        r matches Ok(t) ==> tokenizer_source(t) == json@,
{
    Tokenizer::from_str(json).map_err(|e| e.to_string())
}

/// `PostProcessor::added_tokens(false)` of the tokenizer's post-processor, where it has one.
#[verifier::external_body]
fn tokenizer_added_tokens(tokenizer: &Tokenizer) -> (r: Option<usize>)
    ensures
        match r {
            None => added_tokens(tokenizer_source(*tokenizer)) is None,
            Some(n) => added_tokens(tokenizer_source(*tokenizer)) == Some(n as nat),
        },
{
    tokenizer.get_post_processor().map(|p| p.added_tokens(false))
}

/// `with_padding(Some(PaddingParams::default()))` replaces the padding parameters (each
/// batch is padded to its longest row) and nothing else.
#[verifier::external_body]
fn tokenizer_set_padding(tokenizer: &mut Tokenizer)
    ensures
        tokenizer_pads(*final(tokenizer)),
        tokenizer_source(*final(tokenizer)) == tokenizer_source(*old(tokenizer)),
        tokenizer_truncates(*final(tokenizer)) == tokenizer_truncates(*old(tokenizer)),
{
    tokenizer.with_padding(Some(tokenizers::PaddingParams::default()));
}

/// `with_truncation(Some(TruncationParams::default()))` replaces the truncation parameters
/// and nothing else. It fails where the stride exceeds what the added tokens leave of the row
/// length; the default stride is zero, so it never does. It subtracts the number of added
/// tokens from the row length, hence the precondition.
#[verifier::external_body]
fn tokenizer_set_truncation(tokenizer: &mut Tokenizer) -> (r: Result<(), String>)
    requires
        leaves_room(tokenizer_source(*old(tokenizer))),
    ensures
        r is Ok,
        tokenizer_truncates(*final(tokenizer)),
        tokenizer_source(*final(tokenizer)) == tokenizer_source(*old(tokenizer)),
        tokenizer_pads(*final(tokenizer)) == tokenizer_pads(*old(tokenizer)),
{
    let params = tokenizers::TruncationParams::default();
    tokenizer.with_truncation(Some(params)).map(|_| ()).map_err(|e| e.to_string())
}

/// `encode_batch` encodes each text on its own and gives the rows back in the order of the
/// texts. Each row has an attention mask as long as its ids. Rows are cut, before the added
/// tokens come to them, so that they hold no more than the row length. With the default padding,
/// which goes to the longest row of the batch, all rows are then equally long. What the ids are
/// is named and not stated.
#[verifier::external_body]
fn tokenizer_encode_batch(
    tokenizer: &Tokenizer,
    batch: &Vec<String>,
    add_special_tokens: bool,
) -> (r: Result<Vec<TokenRow>, String>)
    requires
        admitted(tokenizer_source(*tokenizer)),
        tokenizer_pads(*tokenizer),
        tokenizer_truncates(*tokenizer),
        leaves_room(tokenizer_source(*tokenizer)),
    ensures
        outcome_view(r) == encoding(
            tokenizer_source(*tokenizer),
            tokenizer_pads(*tokenizer),
            tokenizer_truncates(*tokenizer),
            texts(batch@),
            add_special_tokens,
        ),
        r matches Ok(rows) ==> rows@.len() == batch@.len() && even_rows(rows@) && short_rows(
            rows@,
        ) && same_length(rows@),
{
    let encodings = tokenizer.encode_batch(batch.to_vec(), add_special_tokens);
    encodings.map_err(|e| e.to_string()).map(
        |rows| rows.iter().map(
            |e| TokenRow { ids: e.get_ids().to_vec(), mask: e.get_attention_mask().to_vec() },
        ).collect(),
    )
}

/// One encoded sentence: its token ids, and for each whether the model attends to it.
#[derive(Debug)]
pub struct TokenRow {
    pub ids: Vec<u32>,
    pub mask: Vec<u32>,
}

impl View for TokenRow {
    type V = (Seq<u32>, Seq<u32>);

    open spec fn view(&self) -> (Seq<u32>, Seq<u32>) {
        (self.ids@, self.mask@)
    }
}

/// The plain contents of some rows.
pub open spec fn rows_view(rows: Seq<TokenRow>) -> Seq<(Seq<u32>, Seq<u32>)> {
    rows.map_values(|r: TokenRow| r@)
}

/// What came of encoding: the rows, or nothing where it failed.
pub open spec fn outcome_view(r: Result<Vec<TokenRow>, String>) -> Option<
    Seq<(Seq<u32>, Seq<u32>)>,
> {
    match r {
        Ok(rows) => Some(rows_view(rows@)),
        Err(_) => None,
    }
}

/// Whether each mask is as long as its ids.
pub open spec fn even_rows(rows: Seq<TokenRow>) -> bool {
    forall|i: int| 0 <= i < rows.len() ==> (#[trigger] rows[i]).mask@.len() == rows[i].ids@.len()
}

/// Whether no row has more ids than the row length.
pub open spec fn short_rows(rows: Seq<TokenRow>) -> bool {
    forall|i: int| 0 <= i < rows.len() ==> (#[trigger] rows[i]).ids@.len() <= MAX_LENGTH
}

/// Whether all rows have the same number of ids.
pub open spec fn same_length(rows: Seq<TokenRow>) -> bool {
    forall|i: int, j: int|
        0 <= i < rows.len() && 0 <= j < rows.len() ==> (#[trigger] rows[i]).ids@.len() == (
        #[trigger] rows[j]).ids@.len()
}

/// Why an encoder could not be made.
#[derive(Debug)]
pub enum LoadError {
    /// The text defines no tokenizer.
    Tokenizer(String),
    /// The text is JSON, but repeats a name or has a part that is not admitted.
    Definition,
    /// The tokens that the definition adds do not fit in a row.
    AddedTokens(usize),
}

/// A tokenizer set up for batches: padded to the longest row, cut to the maximal length.
pub struct TextEncoder {
    tokenizer: Tokenizer,
}

impl TextEncoder {
    /// The JSON definition of the tokenizer.
    pub closed spec fn source(&self) -> Seq<char> {
        tokenizer_source(self.tokenizer)
    }

    #[verifier::type_invariant]
    closed spec fn ready(&self) -> bool {
        &&& admitted(tokenizer_source(self.tokenizer))
        &&& tokenizer_pads(self.tokenizer)
        &&& tokenizer_truncates(self.tokenizer)
        &&& leaves_room(tokenizer_source(self.tokenizer))
    }

    /// Reads a tokenizer definition and sets the tokenizer up for batches.
    pub fn load(json: &str) -> (r: Result<TextEncoder, LoadError>)
        ensures
            loads(json@, match r {
                Ok(_) => None,
                Err(e) => Some(e),
            }),
            r matches Ok(encoder) ==> encoder.source() == json@,
    {
        match read_definition(json) {
            Reading::Admitted => {},
            Reading::NotJson(message) => {
                return Err(LoadError::Tokenizer(message));
            },
            Reading::Refused => {
                return Err(LoadError::Definition);
            },
        }
        let mut tokenizer: Tokenizer = match tokenizer_from_str(json) {
            Ok(tokenizer) => tokenizer,
            Err(message) => {
                return Err(LoadError::Tokenizer(message));
            },
        };
        tokenizer_set_padding(&mut tokenizer);
        match tokenizer_added_tokens(&tokenizer) {
            None => {},
            Some(n) => {
                if n > MAX_LENGTH {
                    return Err(LoadError::AddedTokens(n));
                }
            },
        }
        match tokenizer_set_truncation(&mut tokenizer) {
            Ok(_) => Ok(TextEncoder { tokenizer }),
            Err(message) => Err(LoadError::Tokenizer(message)),
        }
    }

    /// Encodes a batch, special tokens included. All rows come out equally long.
    pub fn encode(&self, batch: &Vec<String>) -> (r: Result<Vec<TokenRow>, String>)
        ensures
            outcome_view(r) == encoding(self.source(), true, true, texts(batch@), true),
            r matches Ok(rows) ==> rows@.len() == batch@.len() && even_rows(rows@) && short_rows(
                rows@,
            ) && same_length(rows@),
    {
        proof {
            use_type_invariant(self);
        }
        tokenizer_encode_batch(&self.tokenizer, batch, true)
    }
}

/// What loading a definition comes to: the error, or none.
pub open spec fn loads(json: Seq<char>, error: Option<LoadError>) -> bool {
    match error {
        None => admitted(json) && is_tokenizer_json(json) && leaves_room(json),
        Some(LoadError::Tokenizer(_)) => json_value(json) is None || (admitted(json)
            && !is_tokenizer_json(json)),
        Some(LoadError::Definition) => json_value(json) is Some && !admitted(json),
        Some(LoadError::AddedTokens(n)) => admitted(json) && is_tokenizer_json(json)
            && added_tokens(json) == Some(n as nat) && n > MAX_LENGTH,
    }
}

/// A batch as a model takes it: `n` rows of `seq` cells each, row after row.
#[derive(Debug)]
pub struct ModelInput {
    pub n: usize,
    pub seq: usize,
    pub ids: Vec<u32>,
    pub mask: Vec<u32>,
    pub token_types: Vec<u32>,
}

/// The ids of all rows, one row after the other.
pub open spec fn flat_ids(rows: Seq<(Seq<u32>, Seq<u32>)>) -> Seq<u32>
    decreases rows.len(),
{
    if rows.len() == 0 {
        Seq::empty()
    } else {
        flat_ids(rows.drop_last()) + rows.last().0
    }
}

/// The masks of all rows, one row after the other.
pub open spec fn flat_mask(rows: Seq<(Seq<u32>, Seq<u32>)>) -> Seq<u32>
    decreases rows.len(),
{
    if rows.len() == 0 {
        Seq::empty()
    } else {
        flat_mask(rows.drop_last()) + rows.last().1
    }
}

/// Whether the ids and masks fill a rectangle as wide as the first row.
pub open spec fn fills_rectangle(rows: Seq<(Seq<u32>, Seq<u32>)>) -> bool {
    let cells = rows.len() * rows[0].0.len();
    flat_ids(rows).len() == cells && flat_mask(rows).len() == cells
}

/// The batch made of some rows: as wide as the first, with token type zero everywhere.
pub open spec fn input_of(rows: Seq<(Seq<u32>, Seq<u32>)>, input: ModelInput) -> bool {
    &&& input.n == rows.len()
    &&& input.seq == rows[0].0.len()
    &&& input.ids@ == flat_ids(rows)
    &&& input.mask@ == flat_mask(rows)
    &&& input.token_types@ == Seq::new((rows.len() * rows[0].0.len()) as nat, |i: int| 0u32)
}

fn append_all(to: &mut Vec<u32>, from: &Vec<u32>)
    ensures
        final(to)@ == old(to)@ + from@,
{
    let mut i: usize = 0;
    while i < from.len()
        invariant
            i <= from@.len(),
            to@ == old(to)@ + from@.take(i as int),
        decreases from@.len() - i,
    {
        to.push(from[i]);
        assert(from@.take(i + 1) == from@.take(i as int).push(from@[i as int]));
        i += 1;
    }
    assert(from@.take(i as int) == from@);
}

impl ModelInput {
    /// Lays rows out as one batch; `None` where they do not fill a rectangle as wide as the
    /// first row.
    pub fn prepare(rows: &Vec<TokenRow>) -> (r: Option<ModelInput>)
        requires
            rows@.len() > 0,
        ensures
            r is Some <==> fills_rectangle(rows_view(rows@)),
            r matches Some(input) ==> input_of(rows_view(rows@), input),
    {
        let n: usize = rows.len();
        let seq: usize = rows[0].ids.len();
        let ghost all = rows_view(rows@);
        assert(all[0].0 == rows@[0].ids@);
        let mut ids: Vec<u32> = Vec::new();
        let mut mask: Vec<u32> = Vec::new();
        let mut i: usize = 0;
        while i < n
            invariant
                n == rows@.len(),
                all == rows_view(rows@),
                i <= n,
                ids@ == flat_ids(all.take(i as int)),
                mask@ == flat_mask(all.take(i as int)),
            decreases n - i,
        {
            assert(all.take(i + 1).drop_last() == all.take(i as int));
            assert(all.take(i + 1).last() == rows@[i as int]@);
            append_all(&mut ids, &rows[i].ids);
            append_all(&mut mask, &rows[i].mask);
            i += 1;
        }
        assert(all.take(n as int) == all);
        let found: usize = ids.len();
        match n.checked_mul(seq) {
            None => None,
            Some(cells) => {
                if found != cells || mask.len() != cells {
                    return None;
                }
                let mut token_types: Vec<u32> = Vec::new();
                let mut c: usize = 0;
                while c < cells
                    invariant
                        c <= cells,
                        token_types@ == Seq::new(c as nat, |i: int| 0u32),
                    decreases cells - c,
                {
                    token_types.push(0);
                    c += 1;
                }
                Some(ModelInput { n, seq, ids, mask, token_types })
            },
        }
    }
}

/// Whether all rows have `width` ids and as many mask cells.
pub open spec fn all_wide(rows: Seq<(Seq<u32>, Seq<u32>)>, width: nat) -> bool {
    forall|i: int|
        0 <= i < rows.len() ==> (#[trigger] rows[i]).0.len() == width && rows[i].1.len() == width
}

/// Rows of one width fill their rectangle.
pub proof fn even_rows_fill(rows: Seq<(Seq<u32>, Seq<u32>)>, width: nat)
    requires
        all_wide(rows, width),
    ensures
        flat_ids(rows).len() == rows.len() * width,
        flat_mask(rows).len() == rows.len() * width,
        rows.len() > 0 ==> fills_rectangle(rows),
    decreases rows.len(),
{
    if rows.len() > 0 {
        let front = rows.drop_last();
        even_rows_fill(front, width);
        assert(rows.len() * width == front.len() * width + width) by (nonlinear_arith)
            requires
                rows.len() == front.len() + 1,
        ;
    }
}

/// In a batch of rows of one width, the cell of row `s` and column `t` holds the `t`-th id and
/// the `t`-th mask cell of the `s`-th row.
pub proof fn rectangle_keeps_cells(
    rows: Seq<(Seq<u32>, Seq<u32>)>,
    width: nat,
    s: int,
    t: int,
)
    requires
        all_wide(rows, width),
        0 <= s < rows.len(),
        0 <= t < width,
    ensures
        0 <= s * width + t < flat_ids(rows).len(),
        flat_ids(rows)[s * width + t] == rows[s].0[t],
        flat_mask(rows)[s * width + t] == rows[s].1[t],
    decreases rows.len(),
{
    let front = rows.drop_last();
    let m = front.len();
    even_rows_fill(front, width);
    even_rows_fill(rows, width);
    assert(0 <= s * width && s * width + width <= rows.len() * width) by (nonlinear_arith)
        requires
            0 <= s < rows.len(),
            0 <= width,
    ;
    if s < m {
        rectangle_keeps_cells(front, width, s, t);
    } else {
        assert(s * width == m * width);
    }
}

/// What an encoder gives back always fills its rectangle.
pub proof fn encoded_rows_fill(rows: Seq<TokenRow>)
    requires
        rows.len() > 0,
        even_rows(rows),
        same_length(rows),
    ensures
        fills_rectangle(rows_view(rows)),
{
    let all = rows_view(rows);
    assert forall|i: int| 0 <= i < all.len() implies (#[trigger] all[i]).0.len()
        == rows[0].ids@.len() && all[i].1.len() == rows[0].ids@.len() by {
        assert(all[i] == rows[i]@);
    }
    even_rows_fill(all, rows[0].ids@.len());
}

/// A batch holds its rows: it has as many as there are and is as wide as they are, and the cell of
/// row `s` and column `t` has the `t`-th id and mask cell of that row, and token type zero.
pub proof fn batch_holds_its_rows(
    rows: Seq<(Seq<u32>, Seq<u32>)>,
    width: nat,
    input: ModelInput,
    s: int,
    t: int,
)
    requires
        forall|i: int|
            0 <= i < rows.len() ==> (#[trigger] rows[i]).0.len() == width && rows[i].1.len()
                == width,
        0 <= s < rows.len(),
        0 <= t < width,
        input_of(rows, input),
    ensures
        input.n == rows.len(),
        input.seq == width,
        input.ids@.len() == rows.len() * width,
        input.mask@.len() == rows.len() * width,
        input.token_types@.len() == rows.len() * width,
        input.ids@[s * width + t] == rows[s].0[t],
        input.mask@[s * width + t] == rows[s].1[t],
        input.token_types@[s * width + t] == 0,
{
    even_rows_fill(rows, width);
    rectangle_keeps_cells(rows, width, s, t);
    assert(rows[0].0.len() == width);
}

/// A definition loads exactly when it is admitted, defines a tokenizer and adds no more than 512
/// tokens to a sentence. The error says which of these fails.
pub proof fn loading_says_why(json: Seq<char>, message: String, n: usize)
    ensures
        loads(json, None) <==> admitted(json) && is_tokenizer_json(json) && (added_tokens(
            json,
        ) is None || added_tokens(json)->Some_0 <= 512),
        loads(json, Some(LoadError::Definition)) ==> json_value(json) is Some && !admitted(json),
        loads(json, Some(LoadError::Tokenizer(message))) ==> json_value(json) is None || (admitted(
            json,
        ) && !is_tokenizer_json(json)),
        loads(json, Some(LoadError::AddedTokens(n))) ==> added_tokens(json) == Some(n as nat) && n
            > 512,
{
}

} // verus!
