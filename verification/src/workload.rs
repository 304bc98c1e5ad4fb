//! What is measured: the input texts, the batches and how often each is run.
use crate::text::{chars_of, is_white_space, word_count, word_starts};
use vstd::prelude::*;

verus! {

/// How much a benchmark measures.
#[derive(Clone, Copy, Debug, PartialEq, Eq, Structural)]
pub struct Profile {
    /// Single embeddings before timing begins.
    pub warmup: usize,
    /// Timed single embeddings.
    pub latency_samples: usize,
    /// Batches before timing begins.
    pub batch_warmup: usize,
    /// Timed batches.
    pub throughput_reps: usize,
}

/// The smaller of two numbers.
pub open spec fn smaller(a: usize, b: usize) -> usize {
    if a <= b {
        a
    } else {
        b
    }
}

impl Profile {
    /// A profile whose batches warm up like single embeddings do, but at most `cap` times.
    pub fn new(warmup: usize, cap: usize, latency_samples: usize, throughput_reps: usize) -> (r:
        Profile)
        ensures
            r == (Profile {
                warmup,
                latency_samples,
                batch_warmup: smaller(warmup, cap),
                throughput_reps,
            }),
    {
        let batch_warmup: usize = if warmup <= cap {
            warmup
        } else {
            cap
        };
        Profile { warmup, latency_samples, batch_warmup, throughput_reps }
    }

    /// The profile of the interleaved comparison, which repeats everything trial by trial.
    pub fn comparison() -> (r: Profile)
        ensures
            r == (Profile {
                warmup: 5,
                latency_samples: 80,
                batch_warmup: 3,
                throughput_reps: 10,
            }),
    {
        Profile::new(5, 3, 80, 10)
    }

    /// The profile of the single pass, which measures everything once.
    pub fn single_pass() -> (r: Profile)
        ensures
            r == (Profile {
                warmup: 20,
                latency_samples: 200,
                batch_warmup: 5,
                throughput_reps: 20,
            }),
    {
        Profile::new(20, 5, 200, 20)
    }
}

/// The batch sizes over which throughput is swept.
pub fn batch_sizes() -> (r: Vec<usize>)
    ensures
        r@ == seq![1usize, 8, 16, 32, 64],
{
    vec![1, 8, 16, 32, 64]
}

/// A text of the latency scenario, with its label.
#[derive(Debug)]
pub struct LatencyInput {
    pub label: String,
    pub text: String,
}

/// The texts of the latency scenario, from short to long.
pub fn latency_inputs() -> (r: Vec<LatencyInput>)
    ensures
        r@.len() == 3,
        r@[0].label@ == "short"@,
        r@[0].text@ == "Dark brown iris."@,
        r@[1].label@ == "medium"@,
        r@[1].text@ == "Adult male with reddish-brown dorsal fur and pale ventral coloration."@,
        r@[2].label@ == "long"@,
        r@[2].text@
            == "Adult male with reddish-brown dorsal fur and pale ventral coloration, collected near a montane stream at 1850 meters elevation; iris dark brown, bill black with a yellow gape, pelage soft and dense, hind foot length 24 millimeters, with worn molars indicating an older individual found in primary forest understory shortly after dawn."@,
{
    let short: LatencyInput = LatencyInput {
        label: "short".to_string(),
        text: "Dark brown iris.".to_string(),
    };
    let medium: LatencyInput = LatencyInput {
        label: "medium".to_string(),
        text: "Adult male with reddish-brown dorsal fur and pale ventral coloration.".to_string(),
    };
    let long: LatencyInput = LatencyInput {
        label: "long".to_string(),
        text:
            "Adult male with reddish-brown dorsal fur and pale ventral coloration, collected near a montane stream at 1850 meters elevation; iris dark brown, bill black with a yellow gape, pelage soft and dense, hind foot length 24 millimeters, with worn molars indicating an older individual found in primary forest understory shortly after dawn.".to_string(),
    };
    vec![short, medium, long]
}

/// A rough count of the tokens of a text: its words.
pub fn approx_tokens(text: &str) -> (r: usize)
    ensures
        r == word_count(text@),
{
    let v: Vec<char> = chars_of(text);
    let mut count: usize = 0;
    let mut i: usize = 0;
    while i < v.len()
        invariant
            v@ == text@,
            i <= v@.len(),
            count <= i,
            count == word_count(text@.take(i as int)),
        decreases v@.len() - i,
    {
        proof {
            let upto = text@.take(i + 1);
            assert(upto.drop_last() == text@.take(i as int));
            assert(upto.last() == text@[i as int]);
            assert(i > 0 ==> upto[i - 1] == text@[i - 1]);
            assert(word_starts(upto, i as int) == word_starts(text@, i as int));
        }
        if !is_white_space(v[i]) && (i == 0 || is_white_space(v[i - 1])) {
            count += 1;
        }
        i += 1;
    }
    assert(text@.take(i as int) == text@);
    count
}

/// The text at place `i` of a batch: the corpus over and over, or a stock phrase where the
/// corpus is empty.
pub open spec fn batch_text(corpus: Seq<String>, i: int) -> Seq<char> {
    if corpus.len() == 0 {
        "a specimen note"@
    } else {
        corpus[i % (corpus.len() as int)]@
    }
}

/// A throughput measurement: the batch, how often it is embedded to warm up and then timed,
/// and how many sentences the timed batches hold.
#[derive(Debug)]
pub struct ThroughputPlan {
    pub texts: Vec<String>,
    pub warmups: usize,
    pub reps: usize,
    pub sentences: usize,
}

/// Plans a throughput measurement.
pub fn throughput_plan(batch: usize, corpus: &Vec<String>, profile: Profile) -> (r: ThroughputPlan)
    requires
        batch * profile.throughput_reps <= usize::MAX,
    ensures
        r.texts@.len() == batch,
        forall|i: int| 0 <= i < batch ==> (#[trigger] r.texts@[i])@ == batch_text(corpus@, i),
        corpus@.len() > 0 ==> forall|i: int|
            0 <= i < batch ==> (#[trigger] r.texts@[i])@ == corpus@[i % (corpus@.len() as int)]@,
        corpus@.len() == 0 ==> forall|i: int|
            0 <= i < batch ==> (#[trigger] r.texts@[i])@ == "a specimen note"@,
        r.warmups == profile.batch_warmup,
        r.reps == profile.throughput_reps,
        r.sentences == batch * profile.throughput_reps,
{
    let mut texts: Vec<String> = Vec::new();
    let mut i: usize = 0;
    while i < batch
        invariant
            i <= batch,
            texts@.len() == i,
            forall|j: int| 0 <= j < i ==> (#[trigger] texts@[j])@ == batch_text(corpus@, j),
        decreases batch - i,
    {
        if corpus.len() == 0 {
            texts.push("a specimen note".to_string());
        } else {
            texts.push(corpus[i % corpus.len()].clone());
        }
        i += 1;
    }
    ThroughputPlan {
        texts,
        warmups: profile.batch_warmup,
        reps: profile.throughput_reps,
        sentences: batch * profile.throughput_reps,
    }
}

/// A batch repeats the corpus: texts one corpus length apart are the same.
pub proof fn batch_repeats_corpus(corpus: Seq<String>, i: int)
    requires
        0 <= i,
    ensures
        batch_text(corpus, i + corpus.len()) == batch_text(corpus, i),
        0 <= i < corpus.len() ==> batch_text(corpus, i) == corpus[i]@,
{
    if corpus.len() > 0 {
        vstd::arithmetic::div_mod::lemma_mod_add_multiples_vanish(i, corpus.len() as int);
        if i < corpus.len() {
            vstd::arithmetic::div_mod::lemma_small_mod(i as nat, corpus.len());
        }
    }
}

} // verus!
