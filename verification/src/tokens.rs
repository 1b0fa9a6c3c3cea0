//! Token batches: tokenized texts laid out as rectangular arrays.

use vstd::prelude::*;

use crate::rows::{lemma_row_fits, lemma_row_index};
use crate::text::views;

verus! {

/// The tokenizer of the `tokenizers` crate.
#[verifier::external_type_specification]
#[verifier::external_body]
pub struct ExTokenizer(tokenizers::Tokenizer);

/// One tokenized text.
pub struct Encoded {
    pub ids: Vec<u32>,
    pub mask: Vec<u32>,
    pub types: Vec<u32>,
}

/// The model of a tokenized text.
pub struct EncodedView {
    pub ids: Seq<u32>,
    pub mask: Seq<u32>,
    pub types: Seq<u32>,
}

impl View for Encoded {
    type V = EncodedView;

    open spec fn view(&self) -> EncodedView {
        EncodedView { ids: self.ids@, mask: self.mask@, types: self.types@ }
    }
}

/// The views of some tokenized texts.
pub open spec fn encoded_views(v: Seq<Encoded>) -> Seq<EncodedView> {
    v.map_values(|e: Encoded| e@)
}

/// Why texts could not be laid out as a batch.
#[derive(Debug)]
pub enum TokenError {
    /// The tokenizer refused, with this message.
    Encode(String),
    /// A text has fewer tokens than the fixed length: this many.
    Short(usize),
    /// The arrays would not fit in memory.
    TooLarge,
    /// The length does not hold the special tokens.
    Settings,
}

/// The truncation that a tokenizer is set to, as `get_truncation` gives it: the
/// length and the stride.
pub uninterp spec fn truncation_of(t: tokenizers::Tokenizer) -> Option<(usize, usize)>;

/// The padding that a tokenizer is set to, as `get_padding` gives it: the fixed
/// length if it has one, and the number that lengths are a multiple of.
pub uninterp spec fn padding_of(t: tokenizers::Tokenizer) -> Option<
    (Option<usize>, Option<usize>),
>;

/// How many special tokens the post-processor of a tokenizer adds to a text.
pub uninterp spec fn added_tokens_of(t: tokenizers::Tokenizer) -> usize;

/// The model of a tokenizer leaves out merges by chance.
pub uninterp spec fn drops_of(t: tokenizers::Tokenizer) -> bool;

/// What a tokenizer gives for some texts; `None` where it fails on one of them.
pub uninterp spec fn encodings_of(
    t: tokenizers::Tokenizer,
    texts: Seq<Seq<char>>,
) -> Option<Seq<EncodedView>>;

/// A pool of threads outlives a job that panics.
pub uninterp spec fn outlives_panics(p: rayon::ThreadPool) -> bool;

/// Calls `tokenizers::Tokenizer::get_truncation`, and takes the maximum length and
/// the stride of what it gives.
#[verifier::external_body]
fn truncation(tokenizer: &tokenizers::Tokenizer) -> (r: Option<(usize, usize)>)
    ensures
        r == truncation_of(*tokenizer),
{
    tokenizer.get_truncation().map(|t| (t.max_length, t.stride))
}

/// Calls `tokenizers::Tokenizer::get_padding`, and takes the length of a fixed
/// strategy and `pad_to_multiple_of` of what it gives.
#[verifier::external_body]
fn padding(tokenizer: &tokenizers::Tokenizer) -> (r: Option<(Option<usize>, Option<usize>)>)
    ensures
        r == padding_of(*tokenizer),
{
    match tokenizer.get_padding() {
        Some(p) => match p.strategy {
            tokenizers::PaddingStrategy::Fixed(n) => Some((Some(n), p.pad_to_multiple_of)),
            tokenizers::PaddingStrategy::BatchLongest => Some((None, p.pad_to_multiple_of)),
        },
        None => None,
    }
}

/// Calls `tokenizers::PostProcessor::added_tokens` on what
/// `tokenizers::Tokenizer::get_post_processor` gives, for a text by itself. Without
/// a post-processor no token is added.
#[verifier::external_body]
fn added_tokens(tokenizer: &tokenizers::Tokenizer) -> (r: usize)
    ensures
        r == added_tokens_of(*tokenizer),
{
    match tokenizer.get_post_processor() {
        Some(p) => tokenizers::PostProcessor::added_tokens(p, false),
        None => 0,
    }
}

/// Calls `tokenizers::Tokenizer::get_model`, and looks whether it is a byte-pair
/// model that has a dropout. No other model leaves anything to chance.
#[verifier::external_body]
fn drops(tokenizer: &tokenizers::Tokenizer) -> (r: bool)
    ensures
        r == drops_of(*tokenizer),
{
    match tokenizer.get_model() {
        tokenizers::ModelWrapper::BPE(b) => b.dropout.is_some(),
        _ => false,
    }
}

/// Truncation leaves room for the special tokens.
pub open spec fn has_room(truncation: Option<(usize, usize)>, added: usize) -> bool {
    truncation matches Some((max, stride)) ==> added <= max
}

/// A number that may be missing is at most half of what a length can be.
pub open spec fn is_half(n: Option<usize>) -> bool {
    n matches Some(x) ==> x <= usize::MAX / 2
}

/// The length that texts are padded to can be reckoned without an overflow.
pub open spec fn can_pad(padding: Option<(Option<usize>, Option<usize>)>) -> bool {
    padding matches Some((fixed, multiple)) ==> is_half(fixed) && is_half(multiple)
}

/// The length that every text is padded to at least; 0 where there is none.
pub open spec fn padded_length(padding: Option<(Option<usize>, Option<usize>)>) -> nat {
    match padding {
        Some((Some(n), multiple)) => if can_pad(padding) {
            n as nat
        } else {
            0
        },
        _ => 0,
    }
}

/// What a tokenizer gives depends on the texts alone: nothing is left to chance, and
/// no reckoning with its settings overflows, which would end differently from build
/// to build.
pub open spec fn is_settled(t: tokenizers::Tokenizer) -> bool {
    &&& !drops_of(t)
    &&& has_room(truncation_of(t), added_tokens_of(t))
    &&& can_pad(padding_of(t))
}

/// Whether a number that may be missing is at most half of what a length can be.
fn check_half(n: Option<usize>) -> (r: bool)
    ensures
        r == is_half(n),
{
    match n {
        Some(x) => x <= usize::MAX / 2,
        None => true,
    }
}

/// Whether what a tokenizer gives depends on the texts alone.
pub fn settled(tokenizer: &tokenizers::Tokenizer) -> (r: bool)
    ensures
        r == is_settled(*tokenizer),
{
    let room: bool = match truncation(tokenizer) {
        Some((max, _)) => added_tokens(tokenizer) <= max,
        None => true,
    };
    let pads: bool = match padding(tokenizer) {
        Some((fixed, multiple)) => check_half(fixed) && check_half(multiple),
        None => true,
    };
    room && pads && !drops(tokenizer)
}

/// Calls `tokenizers::Tokenizer::with_padding` with a fixed length, everything else
/// being the default, or with none. Nothing else of the tokenizer changes.
#[verifier::external_body]
fn with_padding(tokenizer: &mut tokenizers::Tokenizer, fixed: Option<usize>)
    ensures
        padding_of(*final(tokenizer)) == (match fixed {
            Some(n) => Some((Some(n), None::<usize>)),
            None => None,
        }),
        truncation_of(*final(tokenizer)) == truncation_of(*old(tokenizer)),
        added_tokens_of(*final(tokenizer)) == added_tokens_of(*old(tokenizer)),
        drops_of(*final(tokenizer)) == drops_of(*old(tokenizer)),
{
    tokenizer.with_padding(
        fixed.map(
            |n|
                tokenizers::PaddingParams {
                    strategy: tokenizers::PaddingStrategy::Fixed(n),
                    ..Default::default()
                },
        ),
    );
}

/// Calls `tokenizers::Tokenizer::with_truncation` with a maximum length and a
/// stride, everything else being the default. It refuses a stride that is greater
/// than the length without the special tokens; the call subtracts these from the
/// length, so there may not be more of them. Nothing else of the tokenizer changes.
#[verifier::external_body]
fn with_truncation(tokenizer: &mut tokenizers::Tokenizer, max: usize, stride: usize) -> (r: Result<
    (),
    String,
>)
    requires
        added_tokens_of(*old(tokenizer)) <= max,
    ensures
        r is Ok <==> stride <= max - added_tokens_of(*old(tokenizer)),
        truncation_of(*final(tokenizer)) == (if r is Ok {
            Some((max, stride))
        } else {
            truncation_of(*old(tokenizer))
        }),
        padding_of(*final(tokenizer)) == padding_of(*old(tokenizer)),
        added_tokens_of(*final(tokenizer)) == added_tokens_of(*old(tokenizer)),
        drops_of(*final(tokenizer)) == drops_of(*old(tokenizer)),
{
    let params = tokenizers::TruncationParams { max_length: max, stride, ..Default::default() };
    match tokenizer.with_truncation(Some(params)) {
        Ok(_) => Ok(()),
        Err(e) => Err(e.to_string()),
    }
}

/// Has a tokenizer leave texts at the length that they have.
pub fn set_no_padding(tokenizer: &mut tokenizers::Tokenizer)
    ensures
        padding_of(*final(tokenizer)) is None,
        truncation_of(*final(tokenizer)) == truncation_of(*old(tokenizer)),
        added_tokens_of(*final(tokenizer)) == added_tokens_of(*old(tokenizer)),
        drops_of(*final(tokenizer)) == drops_of(*old(tokenizer)),
{
    with_padding(tokenizer, None);
}

/// Has a tokenizer pad and truncate every text to a fixed length. A length that the
/// special tokens alone exceed is refused.
pub fn set_fixed_length(tokenizer: &mut tokenizers::Tokenizer, width: usize) -> (r: Result<
    (),
    TokenError,
>)
    ensures
        r is Ok <==> added_tokens_of(*old(tokenizer)) <= width,
        r matches Ok(_) ==> padding_of(*final(tokenizer)) == Some((Some(width), None::<usize>))
            && truncation_of(*final(tokenizer)) == Some((width, 0usize)),
        r matches Err(e) ==> e is Settings && *final(tokenizer) == *old(tokenizer),
        added_tokens_of(*final(tokenizer)) == added_tokens_of(*old(tokenizer)),
        drops_of(*final(tokenizer)) == drops_of(*old(tokenizer)),
{
    if added_tokens(tokenizer) > width {
        return Err(TokenError::Settings);
    }
    with_padding(tokenizer, Some(width));
    match with_truncation(tokenizer, width, 0) {
        Ok(_) => Ok(()),
        Err(_) => Err(TokenError::Settings),
    }
}

/// The pool of threads of the `rayon` crate.
#[verifier::external_type_specification]
#[verifier::external_body]
pub struct ExThreadPool(rayon::ThreadPool);

/// Calls `rayon::ThreadPoolBuilder::build` for a pool with a panic handler that does
/// nothing, so that a job that panics ends by itself. Whether the threads can be had
/// depends on the machine.
#[verifier::external_body]
fn build_pool() -> (r: Result<rayon::ThreadPool, String>)
    ensures
        r matches Ok(p) ==> outlives_panics(p),
{
    match rayon::ThreadPoolBuilder::new().panic_handler(|_| {}).build() {
        Ok(p) => Ok(p),
        Err(e) => Err(e.to_string()),
    }
}

/// Calls `tokenizers::Tokenizer::encode_batch` with special tokens, and
/// `get_ids`, `get_attention_mask` and `get_type_ids` on each encoding. There is
/// one encoding per text, and with padding to a fixed length its arrays are at
/// least that long, unless that length cannot be reckoned. Where nothing is left to chance, the encodings are those that
/// `encodings_of` names. The call can panic, for instance where the settings of the
/// tokenizer contradict each other or a regular expression gives up. So it is made
/// as a job of the pool by `rayon::ThreadPool::spawn`, and a job that panics is
/// unwound and sends nothing, which is a failure like any other. Which of several
/// failures is reported is not said.
#[verifier::external_body]
fn encode_batch(
    pool: &rayon::ThreadPool,
    tokenizer: &std::sync::Arc<tokenizers::Tokenizer>,
    texts: &Vec<String>,
) -> (r: Result<Vec<Encoded>, String>)
    requires
        outlives_panics(*pool),
    ensures
        r matches Ok(v) ==> v@.len() == texts@.len(),
        r matches Ok(v) ==> forall|i: int|
            0 <= i < v@.len() ==> long_enough(
                (#[trigger] v@[i])@,
                padded_length(padding_of(**tokenizer)),
            ),
        is_settled(**tokenizer) ==> (match r {
            Ok(v) => encodings_of(**tokenizer, views(texts@)) == Some(encoded_views(v@)),
            Err(_) => encodings_of(**tokenizer, views(texts@)) is None,
        }),
{
    let (sender, receiver) = std::sync::mpsc::channel();
    let (job, list) = (tokenizer.clone(), texts.clone());
    pool.spawn(move || sender.send(job.encode_batch(list, true)).unwrap_or_default());
    match receiver.recv() {
        Ok(Ok(v)) => Ok(v.iter().map(|e| Encoded {
            ids: e.get_ids().to_vec(),
            mask: e.get_attention_mask().to_vec(),
            types: e.get_type_ids().to_vec(),
        }).collect()),
        Ok(Err(e)) => Err(e.to_string()),
        Err(e) => Err(e.to_string()),
    }
}

/// A tokenizer, and the threads that it works on.
pub struct TextEncoder {
    tokenizer: std::sync::Arc<tokenizers::Tokenizer>,
    pool: rayon::ThreadPool,
}

impl TextEncoder {
    #[verifier::type_invariant]
    spec fn inv(self) -> bool {
        outlives_panics(self.pool)
    }

    /// The tokenizer.
    pub closed spec fn tokenizer(&self) -> tokenizers::Tokenizer {
        *self.tokenizer
    }

    /// Sets a tokenizer to work on threads of its own. Where the machine has none to
    /// give, the result says why.
    pub fn new(tokenizer: tokenizers::Tokenizer) -> (r: Result<TextEncoder, String>)
        ensures
            r matches Ok(e) ==> e.tokenizer() == tokenizer,
    {
        match build_pool() {
            Ok(pool) => Ok(TextEncoder { tokenizer: std::sync::Arc::new(tokenizer), pool }),
            Err(e) => Err(e),
        }
    }

    /// Tokenizes texts.
    fn encode(&self, texts: &Vec<String>) -> (r: Result<Vec<Encoded>, String>)
        ensures
            r matches Ok(v) ==> v@.len() == texts@.len(),
            r matches Ok(v) ==> forall|i: int|
                0 <= i < v@.len() ==> long_enough(
                    (#[trigger] v@[i])@,
                    padded_length(padding_of(self.tokenizer())),
                ),
            is_settled(self.tokenizer()) ==> (match r {
                Ok(v) => encodings_of(self.tokenizer(), views(texts@)) == Some(encoded_views(v@)),
                Err(_) => encodings_of(self.tokenizer(), views(texts@)) is None,
            }),
    {
        proof {
            use_type_invariant(self);
        }
        encode_batch(&self.pool, &self.tokenizer, texts)
    }
}

/// The smaller of two numbers.
pub open spec fn least(a: nat, b: nat) -> nat {
    if a < b {
        a
    } else {
        b
    }
}

/// How many tokens the longest of some texts has, none counted beyond `max`; at
/// least 1.
pub open spec fn batch_width(encodings: Seq<EncodedView>, max: nat) -> nat
    decreases encodings.len(),
{
    if encodings.len() == 0 {
        1
    } else {
        let before = batch_width(encodings.drop_last(), max);
        let here = least(encodings.last().ids.len(), max);
        if here > before {
            here
        } else {
            before
        }
    }
}

/// A padded batch: `rows` times `width` token ids, and a mask that is 1 where a
/// token stands and 0 where there is padding.
pub struct PaddedBatch {
    pub rows: usize,
    pub width: usize,
    pub ids: Vec<u32>,
    pub mask: Vec<u32>,
}

/// Some texts laid out as a padded batch.
pub open spec fn is_padded(p: PaddedBatch, encodings: Seq<EncodedView>, max: nat) -> bool {
    let width = batch_width(encodings, max);
    &&& p.rows == encodings.len()
    &&& p.width == width
    &&& p.ids@ == Seq::new(
        encodings.len() * width,
        |x: int| {
            let e = encodings[x / width as int].ids;
            if x % (width as int) < e.len() {
                e[x % width as int]
            } else {
                0
            }
        },
    )
    &&& p.mask@ == Seq::new(
        encodings.len() * width,
        |x: int|
            if x % (width as int) < encodings[x / width as int].ids.len() {
                1u32
            } else {
                0u32
            },
    )
}

/// How many tokens the longest of some texts has.
fn find_width(encodings: &Vec<Encoded>, max_tokens: usize) -> (r: usize)
    ensures
        r == batch_width(encoded_views(encodings@), max_tokens as nat),
        r >= 1,
{
    let ghost all = encoded_views(encodings@);
    let mut width: usize = 1;
    let mut i: usize = 0;
    assert(all.take(0) == Seq::<EncodedView>::empty());
    while i < encodings.len()
        invariant
            i <= encodings@.len(),
            all == encoded_views(encodings@),
            width == batch_width(all.take(i as int), max_tokens as nat),
            width >= 1,
        decreases encodings@.len() - i,
    {
        proof {
            assert(all.take(i + 1).drop_last() == all.take(i as int));
            assert(all.take(i + 1).last() == encodings@[i as int]@);
        }
        let len: usize = encodings[i].ids.len();
        let here: usize = if len < max_tokens {
            len
        } else {
            max_tokens
        };
        if here > width {
            width = here;
        }
        i = i + 1;
    }
    assert(all.take(all.len() as int) == all);
    width
}

/// Lays tokenized texts out as a padded batch; `None` where it would not fit.
/// Texts of more than `max_tokens` tokens are cut.
pub fn pad_batch(encodings: &Vec<Encoded>, max_tokens: usize) -> (r: Option<PaddedBatch>)
    ensures
        match r {
            Some(p) => is_padded(p, encoded_views(encodings@), max_tokens as nat),
            None => encodings@.len() * batch_width(encoded_views(encodings@), max_tokens as nat)
                > usize::MAX,
        },
{
    let ghost all = encoded_views(encodings@);
    let rows: usize = encodings.len();
    let width: usize = find_width(encodings, max_tokens);
    if rows.checked_mul(width).is_none() {
        return None;
    }
    let mut ids: Vec<u32> = Vec::new();
    let mut mask: Vec<u32> = Vec::new();
    let mut i: usize = 0;
    assert(0 * width == 0) by (nonlinear_arith);
    while i < rows
        invariant
            i <= rows,
            rows == encodings@.len(),
            all == encoded_views(encodings@),
            rows * width <= usize::MAX,
            ids@.len() == i * width,
            mask@.len() == i * width,
            forall|x: int|
                0 <= x < ids@.len() ==> #[trigger] ids@[x] == ({
                    let e = all[x / width as int].ids;
                    if x % (width as int) < e.len() {
                        e[x % width as int]
                    } else {
                        0
                    }
                }),
            forall|x: int|
                0 <= x < mask@.len() ==> #[trigger] mask@[x] == (if x % (width as int) < all[x
                    / width as int].ids.len() {
                    1u32
                } else {
                    0
                }),
        decreases rows - i,
    {
        let e = &encodings[i];
        assert(all[i as int] == e@);
        let mut j: usize = 0;
        while j < width
            invariant
                j <= width,
                i < rows,
                all[i as int] == e@,
                ids@.len() == i * width + j,
                mask@.len() == i * width + j,
                forall|x: int|
                    0 <= x < ids@.len() ==> #[trigger] ids@[x] == ({
                        let e = all[x / width as int].ids;
                        if x % (width as int) < e.len() {
                            e[x % width as int]
                        } else {
                            0
                        }
                    }),
                forall|x: int|
                    0 <= x < mask@.len() ==> #[trigger] mask@[x] == (if x % (width as int) < all[x
                        / width as int].ids.len() {
                        1u32
                    } else {
                        0
                    }),
            decreases width - j,
        {
            proof {
                lemma_row_index(i as int, j as int, width as int);
            }
            if j < e.ids.len() {
                ids.push(e.ids[j]);
                mask.push(1);
            } else {
                ids.push(0);
                mask.push(0);
            }
            j = j + 1;
        }
        proof {
            assert((i + 1) * width == i * width + width) by (nonlinear_arith);
        }
        i = i + 1;
    }
    let p = PaddedBatch { rows, width, ids, mask };
    proof {
        assert(p.ids@ =~= Seq::new(
            all.len() * width as nat,
            |x: int| {
                let e = all[x / width as int].ids;
                if x % (width as int) < e.len() {
                    e[x % width as int]
                } else {
                    0
                }
            },
        ));
        assert(p.mask@ =~= Seq::new(
            all.len() * width as nat,
            |x: int|
                if x % (width as int) < all[x / width as int].ids.len() {
                    1u32
                } else {
                    0u32
                },
        ));
    }
    Some(p)
}

/// A text that is cut at `max` tokens takes no more than that, or one cell.
proof fn lemma_width_bounded(encodings: Seq<EncodedView>, max: nat)
    ensures
        batch_width(encodings, max) <= (if max < 1 {
            1
        } else {
            max
        }),
    decreases encodings.len(),
{
    if encodings.len() > 0 {
        lemma_width_bounded(encodings.drop_last(), max);
    }
}

/// A padded batch of some `n` tokenized texts.
pub open spec fn pads_texts(p: PaddedBatch, n: nat, max: nat) -> bool {
    exists|encodings: Seq<EncodedView>|
        encodings.len() == n && #[trigger] is_padded(p, encodings, max)
}

/// What laying tokenized texts out as a padded batch gives: the batch, or that it is
/// too large.
pub open spec fn is_padding(
    r: Result<PaddedBatch, TokenError>,
    encodings: Seq<EncodedView>,
    max: nat,
) -> bool {
    match r {
        Ok(p) => is_padded(p, encodings, max),
        Err(TokenError::TooLarge) => encodings.len() * batch_width(encodings, max) > usize::MAX,
        Err(_) => false,
    }
}

/// Tokenizes texts and lays them out as a padded batch. Where the tokenizer leaves
/// nothing to chance, it is that of the encodings of these texts; otherwise it is
/// that of some encodings, one per text.
pub fn tokenize_padded(encoder: &TextEncoder, texts: &Vec<String>, max_tokens: usize) -> (r: Result<
    PaddedBatch,
    TokenError,
>)
    ensures
        is_settled(encoder.tokenizer()) ==> (match encodings_of(
            encoder.tokenizer(),
            views(texts@),
        ) {
            Some(e) => is_padding(r, e, max_tokens as nat),
            None => r matches Err(TokenError::Encode(_)),
        }),
        r matches Ok(p) ==> pads_texts(p, texts@.len(), max_tokens as nat),
        r matches Err(e) ==> e is Encode || e is TooLarge,
        r matches Err(TokenError::TooLarge) ==> texts@.len() * (if max_tokens < 1 {
            1
        } else {
            max_tokens as int
        }) > usize::MAX,
{
    match encoder.encode(texts) {
        Ok(encodings) => {
            let ghost all = encoded_views(encodings@);
            assert(all.len() == texts@.len());
            match pad_batch(&encodings, max_tokens) {
                Some(p) => {
                    assert(is_padded(p, all, max_tokens as nat));
                    Ok(p)
                },
                None => {
                    proof {
                        let width = batch_width(all, max_tokens as nat);
                        let bound = if max_tokens < 1 {
                            1
                        } else {
                            max_tokens as int
                        };
                        lemma_width_bounded(all, max_tokens as nat);
                        assert(all.len() * width <= all.len() * bound) by (nonlinear_arith)
                            requires
                                width <= bound,
                        ;
                    }
                    Err(TokenError::TooLarge)
                },
            }
        },
        Err(e) => Err(TokenError::Encode(e)),
    }
}

/// A batch of a fixed shape: `rows` times `width` token ids, attention masks and
/// type ids.
pub struct FixedBatch {
    pub rows: usize,
    pub width: usize,
    pub ids: Vec<i64>,
    pub mask: Vec<i64>,
    pub types: Vec<i64>,
}

/// Cell `x` of a rectangular array whose rows are given.
pub open spec fn cell(rows: Seq<Seq<u32>>, width: int, x: int) -> i64 {
    rows[x / width][x % width] as i64
}

/// The arrays of some tokenized texts, cut to a fixed length.
pub open spec fn is_fixed(f: FixedBatch, encodings: Seq<EncodedView>, width: nat) -> bool {
    let size = encodings.len() * width;
    &&& f.rows == encodings.len()
    &&& f.width == width
    &&& f.ids@ == Seq::new(
        size,
        |x: int| cell(encodings.map_values(|e: EncodedView| e.ids), width as int, x),
    )
    &&& f.mask@ == Seq::new(
        size,
        |x: int| cell(encodings.map_values(|e: EncodedView| e.mask), width as int, x),
    )
    &&& f.types@ == Seq::new(
        size,
        |x: int| cell(encodings.map_values(|e: EncodedView| e.types), width as int, x),
    )
}

/// A tokenized text is long enough for a fixed length.
pub open spec fn long_enough(e: EncodedView, width: nat) -> bool {
    e.ids.len() >= width && e.mask.len() >= width && e.types.len() >= width
}

/// Lays tokenized texts out as a batch of a fixed shape.
pub fn fix_batch(encodings: &Vec<Encoded>, width: usize) -> (r: FixedBatch)
    requires
        encodings@.len() * width <= usize::MAX,
        forall|i: int|
            0 <= i < encodings@.len() ==> long_enough((#[trigger] encodings@[i])@, width as nat),
    ensures
        is_fixed(r, encoded_views(encodings@), width as nat),
{
    let ghost all = encoded_views(encodings@);
    let ghost all_ids = all.map_values(|e: EncodedView| e.ids);
    let ghost all_mask = all.map_values(|e: EncodedView| e.mask);
    let ghost all_types = all.map_values(|e: EncodedView| e.types);
    let rows: usize = encodings.len();
    let mut ids: Vec<i64> = Vec::new();
    let mut mask: Vec<i64> = Vec::new();
    let mut types: Vec<i64> = Vec::new();
    let mut i: usize = 0;
    assert(0 * width == 0) by (nonlinear_arith);
    while i < rows
        invariant
            i <= rows,
            rows == encodings@.len(),
            all == encoded_views(encodings@),
            all_ids == all.map_values(|e: EncodedView| e.ids),
            all_mask == all.map_values(|e: EncodedView| e.mask),
            all_types == all.map_values(|e: EncodedView| e.types),
            forall|k: int|
                0 <= k < encodings@.len() ==> long_enough(
                    (#[trigger] encodings@[k])@,
                    width as nat,
                ),
            ids@.len() == i * width,
            mask@.len() == i * width,
            types@.len() == i * width,
            forall|x: int|
                0 <= x < ids@.len() ==> #[trigger] ids@[x] == cell(all_ids, width as int, x),
            forall|x: int|
                0 <= x < mask@.len() ==> #[trigger] mask@[x] == cell(all_mask, width as int, x),
            forall|x: int|
                0 <= x < types@.len() ==> #[trigger] types@[x] == cell(all_types, width as int, x),
        decreases rows - i,
    {
        let e = &encodings[i];
        assert(long_enough(e@, width as nat));
        assert(all[i as int] == e@);
        let mut j: usize = 0;
        while j < width
            invariant
                j <= width,
                i < rows,
                rows == all.len(),
                long_enough(e@, width as nat),
                all[i as int] == e@,
                all_ids == all.map_values(|e: EncodedView| e.ids),
                all_mask == all.map_values(|e: EncodedView| e.mask),
                all_types == all.map_values(|e: EncodedView| e.types),
                ids@.len() == i * width + j,
                mask@.len() == i * width + j,
                types@.len() == i * width + j,
                forall|x: int|
                    0 <= x < ids@.len() ==> #[trigger] ids@[x] == cell(all_ids, width as int, x),
                forall|x: int|
                    0 <= x < mask@.len() ==> #[trigger] mask@[x] == cell(all_mask, width as int, x),
                forall|x: int|
                    0 <= x < types@.len() ==> #[trigger] types@[x] == cell(
                        all_types,
                        width as int,
                        x,
                    ),
            decreases width - j,
        {
            proof {
                lemma_row_index(i as int, j as int, width as int);
            }
            ids.push(e.ids[j] as i64);
            mask.push(e.mask[j] as i64);
            types.push(e.types[j] as i64);
            j = j + 1;
        }
        proof {
            assert((i + 1) * width == i * width + width) by (nonlinear_arith);
        }
        i = i + 1;
    }
    let f = FixedBatch { rows, width, ids, mask, types };
    proof {
        let size = all.len() * width as nat;
        assert(f.ids@ =~= Seq::new(size, |x: int| cell(all_ids, width as int, x)));
        assert(f.mask@ =~= Seq::new(size, |x: int| cell(all_mask, width as int, x)));
        assert(f.types@ =~= Seq::new(size, |x: int| cell(all_types, width as int, x)));
    }
    f
}

/// The first tokenized text that is not long enough for a fixed length.
pub open spec fn first_short(encodings: Seq<EncodedView>, width: nat, i: int) -> bool {
    &&& 0 <= i < encodings.len()
    &&& !long_enough(encodings[i], width)
    &&& forall|j: int| 0 <= j < i ==> long_enough(#[trigger] encodings[j], width)
}

/// The length of the first array of a tokenized text that is too short.
pub open spec fn short_length(e: EncodedView, width: nat) -> nat {
    if e.ids.len() < width {
        e.ids.len()
    } else if e.mask.len() < width {
        e.mask.len()
    } else {
        e.types.len()
    }
}

/// What laying tokenized texts out as a batch of a fixed shape gives: the batch;
/// or, where it would not fit, that it is too large; or the length of the first
/// array that is too short.
pub open spec fn is_layout(
    r: Result<FixedBatch, TokenError>,
    encodings: Seq<EncodedView>,
    width: nat,
) -> bool {
    match r {
        Ok(f) => {
            &&& forall|i: int|
                0 <= i < encodings.len() ==> long_enough(#[trigger] encodings[i], width)
            &&& is_fixed(f, encodings, width)
        },
        Err(TokenError::TooLarge) => encodings.len() * width > usize::MAX,
        Err(TokenError::Short(n)) => {
            &&& encodings.len() * width <= usize::MAX
            &&& exists|i: int| #[trigger]
                first_short(encodings, width, i) && n == short_length(encodings[i], width)
        },
        Err(_) => false,
    }
}

/// Lays tokenized texts out as a batch of a fixed shape, or says why that cannot
/// be done.
pub fn lay_out_fixed(encodings: &Vec<Encoded>, width: usize) -> (r: Result<FixedBatch, TokenError>)
    ensures
        is_layout(r, encoded_views(encodings@), width as nat),
{
    let ghost all = encoded_views(encodings@);
    if encodings.len().checked_mul(width).is_none() {
        return Err(TokenError::TooLarge);
    }
    let mut i: usize = 0;
    while i < encodings.len()
        invariant
            i <= encodings@.len(),
            all == encoded_views(encodings@),
            encodings@.len() * width <= usize::MAX,
            forall|k: int| 0 <= k < i ==> long_enough(#[trigger] all[k], width as nat),
        decreases encodings@.len() - i,
    {
        let e = &encodings[i];
        assert(all[i as int] == e@);
        if e.ids.len() < width {
            assert(first_short(all, width as nat, i as int));
            return Err(TokenError::Short(e.ids.len()));
        }
        if e.mask.len() < width {
            assert(first_short(all, width as nat, i as int));
            return Err(TokenError::Short(e.mask.len()));
        }
        if e.types.len() < width {
            assert(first_short(all, width as nat, i as int));
            return Err(TokenError::Short(e.types.len()));
        }
        i = i + 1;
    }
    assert forall|k: int| 0 <= k < encodings@.len() implies long_enough(
        (#[trigger] encodings@[k])@,
        width as nat,
    ) by {
        assert(all[k] == encodings@[k]@);
    }
    Ok(fix_batch(encodings, width))
}

/// What laying some `n` tokenized texts out as a batch of a fixed shape gives.
pub open spec fn lays_out_texts(r: Result<FixedBatch, TokenError>, n: nat, width: nat) -> bool {
    exists|encodings: Seq<EncodedView>|
        encodings.len() == n && #[trigger] is_layout(r, encodings, width)
}

/// Tokenizes texts and lays them out as a batch of a fixed shape. Where the
/// tokenizer leaves nothing to chance, it is that of the encodings of these texts;
/// otherwise it is that of some encodings, one per text. Where the tokenizer pads to
/// that length or more, no text is too short.
pub fn tokenize_fixed(encoder: &TextEncoder, texts: &Vec<String>, width: usize) -> (r: Result<
    FixedBatch,
    TokenError,
>)
    ensures
        is_settled(encoder.tokenizer()) ==> (match encodings_of(
            encoder.tokenizer(),
            views(texts@),
        ) {
            Some(e) => is_layout(r, e, width as nat),
            None => r matches Err(TokenError::Encode(_)),
        }),
        (r matches Err(e) && e is Encode) || lays_out_texts(r, texts@.len(), width as nat),
        padded_length(padding_of(encoder.tokenizer())) >= width ==> !(r matches Err(e)
            && e is Short),
{
    match encoder.encode(texts) {
        Ok(encodings) => {
            let ghost all = encoded_views(encodings@);
            let r = lay_out_fixed(&encodings, width);
            proof {
                assert(all.len() == texts@.len());
                assert(is_layout(r, all, width as nat));
                if padded_length(padding_of(encoder.tokenizer())) >= width {
                    assert forall|i: int| 0 <= i < all.len() implies long_enough(
                        #[trigger] all[i],
                        width as nat,
                    ) by {
                        assert(all[i] == encodings@[i]@);
                    }
                }
            }
            r
        },
        Err(e) => Err(TokenError::Encode(e)),
    }
}

/// An output of a model is the hidden state: three axes, the last of which is the
/// dimension.
pub open spec fn is_hidden_state(shape: Option<Seq<i64>>, dim: usize) -> bool {
    shape matches Some(s) && s.len() == 3 && s[2] as usize == dim
}

/// The view of a shape.
pub open spec fn shape_view(shape: Option<Vec<i64>>) -> Option<Seq<i64>> {
    match shape {
        Some(s) => Some(s@),
        None => None,
    }
}

/// The first output of a model that is the hidden state. `None` among the shapes
/// is an output that holds no floating-point tensor.
pub fn hidden_state(shapes: &Vec<Option<Vec<i64>>>, dim: usize) -> (r: Option<usize>)
    ensures
        match r {
            Some(i) => i < shapes@.len() && is_hidden_state(shape_view(shapes@[i as int]), dim)
                && forall|j: int|
                0 <= j < i ==> !is_hidden_state(shape_view(#[trigger] shapes@[j]), dim),
            None => forall|j: int|
                0 <= j < shapes@.len() ==> !is_hidden_state(
                    shape_view(#[trigger] shapes@[j]),
                    dim,
                ),
        },
{
    let mut i: usize = 0;
    while i < shapes.len()
        invariant
            i <= shapes@.len(),
            forall|j: int|
                0 <= j < i ==> !is_hidden_state(shape_view(#[trigger] shapes@[j]), dim),
        decreases shapes@.len() - i,
    {
        match &shapes[i] {
            Some(s) => {
                if s.len() == 3 && s[2] as usize == dim {
                    return Some(i);
                }
            },
            None => {},
        }
        i = i + 1;
    }
    None
}

/// The cells of a row that the mask keeps, in order.
pub open spec fn kept_cells(mask: Seq<i64>, row: int, width: int, n: int) -> Seq<int>
    decreases n,
{
    if n <= 0 {
        Seq::empty()
    } else {
        let before = kept_cells(mask, row, width, n - 1);
        if mask[row * width + n - 1] != 0 {
            before.push(row * width + n - 1)
        } else {
            before
        }
    }
}

/// Which cells of a row of a batch are averaged: those that the mask keeps.
pub fn cells_to_pool(mask: &Vec<i64>, row: usize, rows: usize, width: usize) -> (r: Vec<usize>)
    requires
        row < rows,
        mask@.len() == rows * width,
    ensures
        r@.map_values(|i: usize| i as int) == kept_cells(
            mask@,
            row as int,
            width as int,
            width as int,
        ),
{
    proof {
        lemma_row_fits(row as int, rows as int, width as int);
        assert(mask.len() == mask@.len());
    }
    let base: usize = row * width;
    let mut out: Vec<usize> = Vec::new();
    let mut j: usize = 0;
    assert(out@.map_values(|i: usize| i as int) =~= Seq::<int>::empty());
    while j < width
        invariant
            j <= width,
            base == row * width,
            base + width <= mask@.len(),
            mask@.len() <= usize::MAX,
            out@.map_values(|i: usize| i as int) == kept_cells(
                mask@,
                row as int,
                width as int,
                j as int,
            ),
        decreases width - j,
    {
        let ghost before = out@.map_values(|i: usize| i as int);
        if mask[base + j] != 0 {
            out.push(base + j);
            assert(out@.map_values(|i: usize| i as int) =~= before.push(base + j));
        }
        j = j + 1;
    }
    out
}

/// A batch is as wide as its longest text, none counted beyond the bound, and one
/// cell at least: no text is cut that need not be, and no cell is wasted.
pub proof fn law_width_is_longest(encodings: Seq<EncodedView>, max: nat) -> (j: int)
    ensures
        batch_width(encodings, max) >= 1,
        forall|i: int|
            0 <= i < encodings.len() ==> batch_width(encodings, max) >= (#[trigger] encodings[
                i
            ]).ids.len() || batch_width(encodings, max) >= max,
        batch_width(encodings, max) > 1 ==> 0 <= j < encodings.len() && batch_width(encodings, max)
            <= encodings[j].ids.len() && batch_width(encodings, max) <= max,
    decreases encodings.len(),
{
    if encodings.len() == 0 {
        0
    } else {
        let init = encodings.drop_last();
        let j = law_width_is_longest(init, max);
        assert forall|i: int| 0 <= i < encodings.len() implies batch_width(encodings, max) >= (
        #[trigger] encodings[i]).ids.len() || batch_width(encodings, max) >= max by {
            if i < init.len() {
                assert(init[i] == encodings[i]);
            }
        }
        let here = least(encodings.last().ids.len(), max);
        if here > batch_width(init, max) {
            encodings.len() - 1
        } else {
            if 0 <= j < init.len() {
                assert(init[j] == encodings[j]);
            }
            j
        }
    }
}

/// Each text has a row of a padded batch to itself, its tokens from the first cell
/// on, each marked by a one; the cells behind them hold zeros, and are marked by
/// zeros.
pub proof fn law_padded_row_by_row(
    p: PaddedBatch,
    encodings: Seq<EncodedView>,
    max: nat,
    row: int,
    c: int,
)
    requires
        is_padded(p, encodings, max),
        0 <= row < encodings.len(),
        0 <= c < p.width,
    ensures
        p.rows == encodings.len(),
        p.ids@.len() == p.rows * p.width,
        p.mask@.len() == p.rows * p.width,
        p.width == batch_width(encodings, max),
        c < encodings[row].ids.len() ==> p.ids@[row * p.width + c] == encodings[row].ids[c]
            && p.mask@[row * p.width + c] == 1,
        c >= encodings[row].ids.len() ==> p.ids@[row * p.width + c] == 0 && p.mask@[row * p.width
            + c] == 0,
{
    let w = p.width as int;
    lemma_row_fits(row, encodings.len() as int, w);
    lemma_row_index(row, c, w);
}

/// Each text has a row of a batch of a fixed shape to itself: the first cells of its
/// token ids, of its mask and of its types, each in the array of its own.
pub proof fn law_fixed_row_by_row(
    f: FixedBatch,
    encodings: Seq<EncodedView>,
    width: nat,
    row: int,
    c: int,
)
    requires
        is_fixed(f, encodings, width),
        0 <= row < encodings.len(),
        0 <= c < width,
    ensures
        f.rows == encodings.len(),
        f.width == width,
        f.ids@.len() == encodings.len() * width,
        f.mask@.len() == encodings.len() * width,
        f.types@.len() == encodings.len() * width,
        f.ids@[row * width + c] == encodings[row].ids[c],
        f.mask@[row * width + c] == encodings[row].mask[c],
        f.types@[row * width + c] == encodings[row].types[c],
{
    let w = width as int;
    lemma_row_fits(row, encodings.len() as int, w);
    lemma_row_index(row, c, w);
}

/// A batch of a fixed shape is refused as too short exactly where some text lacks a
/// cell of one of its three arrays, and the length says of which.
pub proof fn law_short_texts_are_refused(
    r: Result<FixedBatch, TokenError>,
    encodings: Seq<EncodedView>,
    width: nat,
    i: int,
)
    requires
        is_layout(r, encodings, width),
        encodings.len() * width <= usize::MAX,
        0 <= i < encodings.len(),
    ensures
        encodings[i].ids.len() < width || encodings[i].mask.len() < width
            || encodings[i].types.len() < width ==> r is Err && r->Err_0 is Short,
        r matches Err(TokenError::Short(n)) ==> n < width && exists|j: int|
            0 <= j < encodings.len() && (n == (#[trigger] encodings[j]).ids.len() || n
                == encodings[j].mask.len() || n == encodings[j].types.len()),
{
    if r is Ok {
        assert(long_enough(encodings[i], width));
    }
    if r is Err && r->Err_0 is Short {
        let n = r->Err_0->Short_0;
        let j = choose|j: int| #[trigger]
            first_short(encodings, width, j) && n == short_length(encodings[j], width);
        assert(n == encodings[j].ids.len() || n == encodings[j].mask.len() || n
            == encodings[j].types.len());
    }
}

/// The cells that are averaged are those of the row that the mask keeps, each once
/// and in order.
pub proof fn law_kept_cells(mask: Seq<i64>, row: int, width: int, n: int, x: int)
    requires
        0 <= n,
    ensures
        kept_cells(mask, row, width, n).contains(x) <==> row * width <= x < row * width + n
            && mask[x] != 0,
        forall|a: int, b: int|
            #![trigger kept_cells(mask, row, width, n)[a], kept_cells(mask, row, width, n)[b]]
            0 <= a < b < kept_cells(mask, row, width, n).len() ==> kept_cells(
                mask,
                row,
                width,
                n,
            )[a] < kept_cells(mask, row, width, n)[b],
        forall|a: int|
            0 <= a < kept_cells(mask, row, width, n).len() ==> #[trigger] kept_cells(
                mask,
                row,
                width,
                n,
            )[a] < row * width + n,
    decreases n,
{
    let all = kept_cells(mask, row, width, n);
    if n > 0 {
        law_kept_cells(mask, row, width, n - 1, x);
        let before = kept_cells(mask, row, width, n - 1);
        let last = row * width + n - 1;
        if mask[last] != 0 {
            assert(all == before.push(last));
            if before.contains(x) {
                let a = choose|a: int| 0 <= a < before.len() && before[a] == x;
                assert(all[a] == x);
            }
            assert(all[before.len() as int] == last);
            if all.contains(x) {
                let a = choose|a: int| 0 <= a < all.len() && all[a] == x;
                if a < before.len() {
                    assert(before[a] == x);
                }
            }
        }
    } else {
        assert(all == Seq::<int>::empty());
    }
}

} // verus!
