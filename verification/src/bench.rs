//! The embedding benchmark: which backend is run, with what, and how it is named.

use vstd::prelude::*;
use vstd::slice::*;
use vstd::string::*;

use crate::embedder::{kib_field, read_kib_field};
use crate::json::{json_u64, json_u64_field};
use crate::number::{decimal, push_decimal};
use crate::rows::{embedding_order, lemma_text_order, sorted_texts, take_texts, text_order};
use crate::sorted::same;
use crate::text::{chars_of, contains, law_occurs, lemma_split_nonempty, lower, occurs, split_on, split_string, string_of, views};

verus! {

/// Which ONNX execution provider to register, and how.
#[derive(Clone, Copy, Debug, PartialEq, Eq, Structural)]
pub enum OnnxProvider {
    Cpu,
    CoreMl { units: CoreMlUnits, mlprogram: bool, static_shapes: bool },
}

/// Which units CoreML computes on.
#[derive(Clone, Copy, Debug, PartialEq, Eq, Structural)]
pub enum CoreMlUnits {
    All,
    Ane,
    Gpu,
    Cpu,
}

/// Execution target for the fixed-shape session.
#[derive(Clone, Copy, Debug, PartialEq, Eq, Structural)]
pub enum DirectProvider {
    Cpu,
    CoreMl(CoreMlUnits),
}

/// The name of some units in a label.
pub open spec fn units_name(units: CoreMlUnits) -> Seq<char> {
    match units {
        CoreMlUnits::All => "All"@,
        CoreMlUnits::Ane => "Ane"@,
        CoreMlUnits::Gpu => "Gpu"@,
        CoreMlUnits::Cpu => "Cpu"@,
    }
}

impl CoreMlUnits {
    /// The name of the units in a label.
    pub fn name(&self) -> (r: &'static str)
        ensures
            r@ == units_name(*self),
    {
        match self {
            CoreMlUnits::All => "All",
            CoreMlUnits::Ane => "Ane",
            CoreMlUnits::Gpu => "Gpu",
            CoreMlUnits::Cpu => "Cpu",
        }
    }
}

/// The units that a setting names.
pub open spec fn units_of(setting: Seq<char>) -> Option<CoreMlUnits> {
    if setting == "all"@ {
        Some(CoreMlUnits::All)
    } else if setting == "ane"@ {
        Some(CoreMlUnits::Ane)
    } else if setting == "gpu"@ {
        Some(CoreMlUnits::Gpu)
    } else if setting == "cpu"@ {
        Some(CoreMlUnits::Cpu)
    } else {
        None
    }
}

/// The units that a setting names.
fn parse_units(setting: &str) -> (r: Option<CoreMlUnits>)
    ensures
        r == units_of(setting@),
{
    if same(setting, "all") {
        Some(CoreMlUnits::All)
    } else if same(setting, "ane") {
        Some(CoreMlUnits::Ane)
    } else if same(setting, "gpu") {
        Some(CoreMlUnits::Gpu)
    } else if same(setting, "cpu") {
        Some(CoreMlUnits::Cpu)
    } else {
        None
    }
}

/// The target of the fixed-shape session that a setting names.
pub open spec fn direct_of(setting: Seq<char>) -> Option<DirectProvider> {
    if setting == "none"@ || setting == "cpu-noep"@ {
        Some(DirectProvider::Cpu)
    } else {
        match units_of(setting) {
            Some(units) => Some(DirectProvider::CoreMl(units)),
            None => None,
        }
    }
}

/// The settings of a benchmark run.
pub struct BenchArgs {
    pub backend: String,
    pub model: String,
    pub batch: usize,
    /// 0 leaves the number to the backend.
    pub sessions: usize,
    pub threads: usize,
    /// How many texts a session is handed at once.
    pub group: usize,
    pub coreml_units: String,
    pub coreml_nn: bool,
    pub coreml_static: bool,
    pub half: bool,
    pub seq_len: usize,
    pub afm_url: String,
}

/// The backend that a run uses.
#[derive(Debug)]
pub enum BackendPlan {
    /// Sessions of the ONNX runtime.
    Onnx { provider: OnnxProvider, sessions: usize, threads: usize, group: usize },
    /// An embedding server.
    Afm { url: String, model: String, concurrency: usize },
    /// One ONNX session of a fixed shape.
    Direct { target: DirectProvider, seq_len: usize, batch: usize },
    /// The Apple GPU through candle.
    Candle { half: bool },
}

/// Why no backend can be run.
#[derive(Debug)]
pub enum BackendError {
    UnknownBackend(String),
    UnknownUnits(String),
    /// This build has no candle backend.
    NoCandle,
}

impl BackendError {
    /// The error in words.
    pub open spec fn text(&self) -> Seq<char> {
        match self {
            BackendError::UnknownBackend(s) => "unknown backend "@ + s@,
            BackendError::UnknownUnits(s) => "unknown --coreml-units "@ + s@,
            BackendError::NoCandle => "candle-metal requires building with --features candle"@,
        }
    }

    /// The error in words.
    pub fn message(&self) -> (r: String)
        ensures
            r@ == self.text(),
    {
        match self {
            BackendError::UnknownBackend(s) => {
                let mut m = "unknown backend ".to_owned();
                m.append(s.as_str());
                m
            },
            BackendError::UnknownUnits(s) => {
                let mut m = "unknown --coreml-units ".to_owned();
                m.append(s.as_str());
                m
            },
            BackendError::NoCandle => {
                "candle-metal requires building with --features candle".to_owned()
            },
        }
    }
}

/// A number, or another where it is 0.
pub open spec fn or_else(n: usize, other: usize) -> usize {
    if n == 0 {
        other
    } else {
        n
    }
}

/// A number, and at least 1.
pub open spec fn at_least_one(n: usize) -> usize {
    if n < 1 {
        1
    } else {
        n
    }
}

/// The model that an embedding server is asked for. It speaks models of its own,
/// and not those of the other backends.
pub open spec fn afm_model_of(model: Seq<char>) -> Seq<char> {
    if occurs("apple"@, model) || occurs("nl"@, model) {
        model
    } else {
        "apple-nl-contextual-en"@
    }
}

/// A text without the slashes at its end.
pub open spec fn without_slashes(s: Seq<char>) -> Seq<char>
    decreases s.len(),
{
    if s.len() > 0 && s.last() == '/' {
        without_slashes(s.drop_last())
    } else {
        s
    }
}

/// The address of the embedding endpoint of a server.
pub open spec fn afm_url_of(url: Seq<char>) -> Seq<char> {
    if occurs("/v1/"@, url) {
        url
    } else {
        without_slashes(url) + "/v1/embeddings"@
    }
}

/// The plan for some settings.
pub open spec fn is_plan(plan: BackendPlan, args: BenchArgs, cpus: usize) -> bool {
    let group = at_least_one(args.group);
    if args.backend@ == "onnx-cpu"@ {
        plan == (BackendPlan::Onnx {
            provider: OnnxProvider::Cpu,
            sessions: at_least_one(or_else(args.sessions, cpus)),
            threads: args.threads,
            group,
        })
    } else if args.backend@ == "onnx-coreml"@ {
        units_of(args.coreml_units@) matches Some(units) && plan == (BackendPlan::Onnx {
            provider: OnnxProvider::CoreMl {
                units,
                mlprogram: !args.coreml_nn,
                static_shapes: args.coreml_static,
            },
            sessions: 1,
            threads: args.threads,
            group,
        })
    } else if args.backend@ == "afm-http"@ {
        plan matches BackendPlan::Afm { url, model, concurrency } && url@ == afm_url_of(
            args.afm_url@,
        ) && model@ == afm_model_of(args.model@) && concurrency == at_least_one(
            or_else(args.sessions, 8),
        )
    } else if args.backend@ == "onnx-direct"@ {
        direct_of(args.coreml_units@) matches Some(target) && plan == (BackendPlan::Direct {
            target,
            seq_len: args.seq_len,
            batch: args.batch,
        })
    } else {
        args.backend@ == "candle-metal"@ && plan == (BackendPlan::Candle { half: args.half })
    }
}

/// The error for some settings.
pub open spec fn is_plan_error(e: BackendError, args: BenchArgs, candle_built: bool) -> bool {
    match e {
        BackendError::UnknownUnits(s) => s@ == args.coreml_units@ && (args.backend@
            == "onnx-coreml"@ && units_of(s@) is None || args.backend@ == "onnx-direct"@
            && direct_of(s@) is None),
        BackendError::NoCandle => args.backend@ == "candle-metal"@ && !candle_built,
        BackendError::UnknownBackend(s) => s@ == args.backend@ && s@ != "onnx-cpu"@ && s@
            != "onnx-coreml"@ && s@ != "afm-http"@ && s@ != "onnx-direct"@ && s@
            != "candle-metal"@,
    }
}

/// Some error holds of some settings.
pub open spec fn plan_fails(args: BenchArgs, candle_built: bool) -> bool {
    let b = args.backend@;
    ||| b == "onnx-coreml"@ && units_of(args.coreml_units@) is None
    ||| b == "onnx-direct"@ && direct_of(args.coreml_units@) is None
    ||| b == "candle-metal"@ && !candle_built
    ||| b != "onnx-cpu"@ && b != "onnx-coreml"@ && b != "afm-http"@ && b != "onnx-direct"@ && b
        != "candle-metal"@
}

/// Drops the slashes at the end of a string.
fn trim_slashes(s: &str) -> (r: String)
    ensures
        r@ == without_slashes(s@),
{
    let cs = chars_of(s);
    let mut n: usize = cs.len();
    assert(cs@.take(n as int) == cs@);
    while n > 0 && cs[n - 1] == '/'
        invariant
            n <= cs@.len(),
            without_slashes(cs@.take(n as int)) == without_slashes(cs@),
        decreases n,
    {
        proof {
            assert(cs@.take(n as int).drop_last() == cs@.take(n - 1));
            assert(cs@.take(n as int).last() == cs@[n - 1]);
        }
        n = n - 1;
    }
    proof {
        if n > 0 {
            assert(cs@.take(n as int).last() == cs@[n - 1]);
        }
    }
    string_of(slice_subrange(cs.as_slice(), 0, n))
}

/// The address of the embedding endpoint of a server.
pub fn afm_url(url: &str) -> (r: String)
    ensures
        r@ == afm_url_of(url@),
{
    if contains(url, "/v1/") {
        return url.to_owned();
    }
    let mut s = trim_slashes(url);
    s.append("/v1/embeddings");
    s
}

/// The model that an embedding server is asked for.
pub fn afm_model(model: &str) -> (r: String)
    ensures
        r@ == afm_model_of(model@),
{
    if contains(model, "apple") || contains(model, "nl") {
        model.to_owned()
    } else {
        "apple-nl-contextual-en".to_owned()
    }
}

/// Chooses the backend that some settings ask for, on a machine with `cpus` cores.
pub fn build_backend(args: &BenchArgs, cpus: usize, candle_built: bool) -> (r: Result<
    BackendPlan,
    BackendError,
>)
    ensures
        r is Err <==> plan_fails(*args, candle_built),
        r matches Ok(plan) ==> is_plan(plan, *args, cpus),
        r matches Err(e) ==> is_plan_error(e, *args, candle_built),
{
    proof {
        reveal_strlit("onnx-cpu");
        reveal_strlit("onnx-coreml");
        reveal_strlit("afm-http");
        reveal_strlit("onnx-direct");
        reveal_strlit("candle-metal");
        assert("onnx-cpu"@.len() == 8 && "onnx-coreml"@.len() == 11 && "afm-http"@.len() == 8
            && "onnx-direct"@.len() == 11 && "candle-metal"@.len() == 12);
        assert("onnx-cpu"@[0] == 'o' && "afm-http"@[0] == 'a');
        assert("onnx-coreml"@[5] == 'c' && "onnx-direct"@[5] == 'd');
    }
    let backend = args.backend.as_str();
    let group: usize = if args.group < 1 {
        1
    } else {
        args.group
    };
    if same(backend, "onnx-cpu") {
        let asked: usize = if args.sessions == 0 {
            cpus
        } else {
            args.sessions
        };
        return Ok(
            BackendPlan::Onnx {
                provider: OnnxProvider::Cpu,
                sessions: if asked < 1 {
                    1
                } else {
                    asked
                },
                threads: args.threads,
                group,
            },
        );
    }
    if same(backend, "onnx-coreml") {
        return match parse_units(args.coreml_units.as_str()) {
            Some(units) => Ok(
                BackendPlan::Onnx {
                    provider: OnnxProvider::CoreMl {
                        units,
                        mlprogram: !args.coreml_nn,
                        static_shapes: args.coreml_static,
                    },
                    sessions: 1,
                    threads: args.threads,
                    group,
                },
            ),
            None => Err(BackendError::UnknownUnits(args.coreml_units.clone())),
        };
    }
    if same(backend, "afm-http") {
        return Ok(
            BackendPlan::Afm {
                url: afm_url(args.afm_url.as_str()),
                model: afm_model(args.model.as_str()),
                concurrency: if args.sessions == 0 {
                    8
                } else {
                    args.sessions
                },
            },
        );
    }
    if same(backend, "onnx-direct") {
        let units = args.coreml_units.as_str();
        let provider = if same(units, "none") || same(units, "cpu-noep") {
            DirectProvider::Cpu
        } else {
            match parse_units(units) {
                Some(u) => DirectProvider::CoreMl(u),
                None => {
                    return Err(BackendError::UnknownUnits(args.coreml_units.clone()));
                },
            }
        };
        return Ok(
            BackendPlan::Direct { target: provider, seq_len: args.seq_len, batch: args.batch },
        );
    }
    if same(backend, "candle-metal") {
        if candle_built {
            return Ok(BackendPlan::Candle { half: args.half });
        }
        return Err(BackendError::NoCandle);
    }
    Err(BackendError::UnknownBackend(args.backend.clone()))
}

/// The name of an ONNX backend.
pub open spec fn onnx_text(
    short_id: Seq<char>,
    provider: OnnxProvider,
    sessions: nat,
    threads: nat,
) -> Seq<char> {
    match provider {
        OnnxProvider::Cpu => "onnx-cpu["@ + short_id + "x s"@ + decimal(sessions) + " t"@ + decimal(
            threads,
        ) + "]"@,
        OnnxProvider::CoreMl { units, mlprogram, static_shapes } => "onnx-coreml["@ + short_id
            + " "@ + units_name(units) + (if mlprogram {
            " mlprog "@
        } else {
            " nn "@
        }) + (if static_shapes {
            "static]"@
        } else {
            "dyn]"@
        }),
    }
}

/// The name of an ONNX backend.
pub fn onnx_label(short_id: &str, provider: OnnxProvider, sessions: usize, threads: usize) -> (r:
    String)
    ensures
        r@ == onnx_text(short_id@, provider, sessions as nat, threads as nat),
{
    match provider {
        OnnxProvider::Cpu => {
            let mut s = "onnx-cpu[".to_owned();
            s.append(short_id);
            s.append("x s");
            push_decimal(&mut s, sessions as u128);
            s.append(" t");
            push_decimal(&mut s, threads as u128);
            s.append("]");
            s
        },
        OnnxProvider::CoreMl { units, mlprogram, static_shapes } => {
            let mut s = "onnx-coreml[".to_owned();
            s.append(short_id);
            s.append(" ");
            s.append(units.name());
            if mlprogram {
                s.append(" mlprog ");
            } else {
                s.append(" nn ");
            }
            if static_shapes {
                s.append("static]");
            } else {
                s.append("dyn]");
            }
            s
        },
    }
}

/// The name of the target of a fixed-shape session.
pub open spec fn direct_name(provider: DirectProvider) -> Seq<char> {
    match provider {
        DirectProvider::Cpu => "cpu"@,
        DirectProvider::CoreMl(units) => "coreml:"@ + units_name(units),
    }
}

/// The name of a fixed-shape backend.
pub fn direct_label(short_id: &str, provider: DirectProvider, seq_len: usize, batch: usize) -> (r:
    String)
    ensures
        r@ == "onnx-direct["@ + short_id@ + " "@ + direct_name(provider) + " L"@ + decimal(
            seq_len as nat,
        ) + " B"@ + decimal(batch as nat) + "]"@,
{
    let mut name = String::new();
    match provider {
        DirectProvider::Cpu => {
            name = "cpu".to_owned();
        },
        DirectProvider::CoreMl(units) => {
            name = "coreml:".to_owned();
            name.append(units.name());
        },
    }
    let mut s = "onnx-direct[".to_owned();
    s.append(short_id);
    s.append(" ");
    s.append(name.as_str());
    s.append(" L");
    push_decimal(&mut s, seq_len as u128);
    s.append(" B");
    push_decimal(&mut s, batch as u128);
    s.append("]");
    s
}

/// An error of the ONNX runtime in words.
pub fn oe(message: &str) -> (r: String)
    ensures
        r@ == "ort: "@ + message@,
{
    let mut s = "ort: ".to_owned();
    s.append(message);
    s
}

/// The name of a server backend.
pub fn afm_label(model: &str, dim: usize, concurrency: usize) -> (r: String)
    ensures
        r@ == "afm-http["@ + model@ + " d"@ + decimal(dim as nat) + " c"@ + decimal(
            at_least_one(concurrency) as nat,
        ) + "]"@,
{
    let concurrency: usize = if concurrency < 1 {
        1
    } else {
        concurrency
    };
    let mut s = "afm-http[".to_owned();
    s.append(model);
    s.append(" d");
    push_decimal(&mut s, dim as u128);
    s.append(" c");
    push_decimal(&mut s, concurrency as u128);
    s.append("]");
    s
}

/// The repository of a model of the candle backend.
pub open spec fn candle_repo_of(model: Seq<char>) -> Option<Seq<char>> {
    if model == "jina-en"@ || model == "jinaai/jina-embeddings-v2-base-en"@ {
        Some("jinaai/jina-embeddings-v2-base-en"@)
    } else if model == "jina-code"@ || model == "jinaai/jina-embeddings-v2-base-code"@ {
        Some("jinaai/jina-embeddings-v2-base-code"@)
    } else {
        None
    }
}

/// The repository of a model of the candle backend.
pub fn candle_repo(model: &str) -> (r: Option<&'static str>)
    ensures
        match r {
            Some(s) => candle_repo_of(model@) == Some(s@),
            None => candle_repo_of(model@) is None,
        },
{
    if same(model, "jina-en") || same(model, "jinaai/jina-embeddings-v2-base-en") {
        Some("jinaai/jina-embeddings-v2-base-en")
    } else if same(model, "jina-code") || same(model, "jinaai/jina-embeddings-v2-base-code") {
        Some("jinaai/jina-embeddings-v2-base-code")
    } else {
        None
    }
}

/// What the configuration of a candle model overrides.
#[derive(Debug, Clone, Copy, PartialEq, Eq, Structural)]
pub struct CandleConfig {
    pub vocab_size: usize,
    pub max_position_embeddings: usize,
}

/// A number of the configuration, or the one that was there.
pub open spec fn overridden(value: Option<u64>, default: usize) -> usize {
    match value {
        Some(n) => n as usize,
        None => default,
    }
}

impl CandleConfig {
    /// The configuration with the given numbers in place of its own.
    pub fn override_with(
        &self,
        vocab_size: Option<u64>,
        max_position_embeddings: Option<u64>,
    ) -> (r: CandleConfig)
        ensures
            r.vocab_size == overridden(vocab_size, self.vocab_size),
            r.max_position_embeddings == overridden(
                max_position_embeddings,
                self.max_position_embeddings,
            ),
    {
        CandleConfig {
            vocab_size: match vocab_size {
                Some(n) => n as usize,
                None => self.vocab_size,
            },
            max_position_embeddings: match max_position_embeddings {
                Some(n) => n as usize,
                None => self.max_position_embeddings,
            },
        }
    }

    /// The configuration with the numbers of a `config.json` in place of its own;
    /// `None` where that is not JSON.
    pub fn override_json(&self, text: &[u8]) -> (r: Option<CandleConfig>)
        ensures
            r is Some <==> json_u64(text@, "vocab_size"@) is Some && json_u64(
                text@,
                "max_position_embeddings"@,
            ) is Some,
            r matches Some(c) ==> c.vocab_size == overridden(
                json_u64(text@, "vocab_size"@)->0,
                self.vocab_size,
            ) && c.max_position_embeddings == overridden(
                json_u64(text@, "max_position_embeddings"@)->0,
                self.max_position_embeddings,
            ),
    {
        let vocab: Option<u64> = match json_u64_field(text, "vocab_size") {
            Some(v) => v,
            None => {
                return None;
            },
        };
        let positions: Option<u64> = match json_u64_field(text, "max_position_embeddings") {
            Some(v) => v,
            None => {
                return None;
            },
        };
        Some(self.override_with(vocab, positions))
    }
}

/// The last component of a repository name.
pub fn model_short(repo: &str) -> (r: String)
    ensures
        r@ == split_on(repo@, '/').last(),
{
    let parts = split_string(repo, '/');
    proof {
        lemma_split_nonempty(repo@, '/');
        assert(views(parts@).last() == parts@.last()@);
    }
    parts[parts.len() - 1].clone()
}

/// The name of a candle backend.
pub fn candle_label(repo: &str, half: bool) -> (r: String)
    ensures
        r@ == "candle-metal["@ + split_on(repo@, '/').last() + (if half {
            " f16]"@
        } else {
            " f32]"@
        }),
{
    let mut s = "candle-metal[".to_owned();
    let short = model_short(repo);
    s.append(short.as_str());
    if half {
        s.append(" f16]");
    } else {
        s.append(" f32]");
    }
    s
}

/// The texts that a run embeds: the first `limit` of a corpus, or all where that
/// is 0, and by length if they are to be sorted.
pub open spec fn workload(texts: Seq<Seq<char>>, limit: nat, sort: bool) -> Seq<Seq<char>> {
    let cut = if 0 < limit < texts.len() {
        texts.take(limit as int)
    } else {
        texts
    };
    if sort {
        sorted_texts(cut)
    } else {
        cut
    }
}

/// The texts that a run embeds.
pub fn select_texts(texts: Vec<String>, limit: usize, sort: bool) -> (r: Vec<String>)
    ensures
        views(r@) == workload(views(texts@), limit as nat, sort),
{
    let ghost all = views(texts@);
    let mut texts = texts;
    if limit > 0 && limit < texts.len() {
        texts.truncate(limit);
        assert(views(texts@) =~= all.take(limit as int));
    }
    if !sort {
        return texts;
    }
    let ghost cut = views(texts@);
    let order = embedding_order(&texts);
    proof {
        lemma_text_order(cut);
        assert(crate::order::position_values(order@).len() == order@.len());
        assert forall|i: int| 0 <= i < order@.len() implies #[trigger] order@[i]
            < texts@.len() by {
            assert(crate::order::position_values(order@)[i] == order@[i]);
            assert(0 <= text_order(cut)[i] < cut.len());
        }
    }
    let out = take_texts(&texts, &order, 0, order.len());
    proof {
        assert(views(out@) =~= sorted_texts(cut)) by {
            assert forall|i: int| 0 <= i < order@.len() implies views(out@)[i] == sorted_texts(
                cut,
            )[i] by {
                assert(crate::order::position_values(order@)[i] == order@[i]);
            }
        }
    }
    out
}

/// The memory that this process holds, in bytes, from the text of
/// `/proc/self/status`; 0 where that does not say.
pub fn rss_bytes(status: &str) -> (r: u64)
    ensures
        r == (match kib_field(status@, "VmRSS:"@) {
            Some(n) => n,
            None => 0,
        }),
{
    match read_kib_field(status, "VmRSS:") {
        Some(n) => n,
        None => 0,
    }
}

/// What the watchdog of a run has seen.
pub struct Watch {
    /// The most memory that the process held.
    pub peak: u64,
    /// The most that it may hold, if there is a bound.
    pub budget: Option<u64>,
}

impl Watch {
    /// Takes note of the memory that the process holds. The result says whether it
    /// is over the budget, and the process to be aborted.
    pub fn observe(&mut self, rss: u64) -> (r: bool)
        ensures
            final(self).budget == old(self).budget,
            final(self).peak == (if rss > old(self).peak {
                rss
            } else {
                old(self).peak
            }),
            r == (old(self).budget matches Some(b) && rss > b),
    {
        if rss > self.peak {
            self.peak = rss;
        }
        match self.budget {
            Some(b) => rss > b,
            None => false,
        }
    }
}

/// An address without its trailing slashes: none is left, and nothing else is
/// gone.
pub proof fn law_slashes_go(base: Seq<char>, slashes: Seq<char>)
    requires
        base.len() == 0 || base.last() != '/',
        forall|i: int| 0 <= i < slashes.len() ==> #[trigger] slashes[i] == '/',
    ensures
        without_slashes(base + slashes) == base,
    decreases slashes.len(),
{
    if slashes.len() == 0 {
        assert(base + slashes == base);
    } else {
        let t = slashes.drop_last();
        assert forall|i: int| 0 <= i < t.len() implies #[trigger] t[i] == '/' by {
            assert(t[i] == slashes[i]);
        }
        law_slashes_go(base, t);
        assert(slashes[slashes.len() - 1] == '/');
        assert((base + slashes).drop_last() == base + t);
    }
}

/// The address of a server leads to its embedding endpoint, with one slash between
/// them; an address that names a version already is taken as it is. So doing it
/// twice changes nothing.
pub proof fn law_server_address(base: Seq<char>, slashes: Seq<char>, a: Seq<char>, b: Seq<char>)
    requires
        base.len() == 0 || base.last() != '/',
        forall|i: int| 0 <= i < slashes.len() ==> #[trigger] slashes[i] == '/',
        !occurs("/v1/"@, base + slashes),
    ensures
        afm_url_of(base + slashes) == base + "/v1/embeddings"@,
        afm_url_of(a + "/v1/"@ + b) == a + "/v1/"@ + b,
        afm_url_of(afm_url_of(base + slashes)) == afm_url_of(base + slashes),
{
    law_slashes_go(base, slashes);
    let _ = law_occurs(a, "/v1/"@, b);
    reveal_strlit("/v1/");
    reveal_strlit("/v1/embeddings");
    reveal_strlit("embeddings");
    assert("/v1/embeddings"@ =~= "/v1/"@ + "embeddings"@);
    let _ = law_occurs(base, "/v1/"@, "embeddings"@);
    assert(base + "/v1/embeddings"@ =~= base + "/v1/"@ + "embeddings"@);
}

/// Units are asked for by their names in lower case.
pub proof fn law_units_by_name(units: CoreMlUnits)
    ensures
        units_of(lower(units_name(units))) == Some(units),
        direct_of(lower(units_name(units))) == Some(DirectProvider::CoreMl(units)),
{
    reveal_strlit("All");
    reveal_strlit("Ane");
    reveal_strlit("Gpu");
    reveal_strlit("Cpu");
    reveal_strlit("all");
    reveal_strlit("ane");
    reveal_strlit("gpu");
    reveal_strlit("cpu");
    reveal_strlit("none");
    reveal_strlit("cpu-noep");
    assert(lower("All"@) =~= "all"@);
    assert(lower("Ane"@) =~= "ane"@);
    assert(lower("Gpu"@) =~= "gpu"@);
    assert(lower("Cpu"@) =~= "cpu"@);
    assert("all"@[1] == 'l' && "ane"@[1] == 'n' && "gpu"@[1] == 'p' && "cpu"@[1] == 'p');
    assert("gpu"@[0] == 'g' && "cpu"@[0] == 'c');
    assert("none"@.len() == 4 && "cpu-noep"@.len() == 8);
}

/// A CPU run has as many sessions as are asked for, or as there are cores, and at
/// least one; and it hands out at least one text at a time.
pub proof fn law_sessions_as_asked(plan: BackendPlan, args: BenchArgs, cpus: usize)
    requires
        is_plan(plan, args, cpus),
        args.backend@ == "onnx-cpu"@,
    ensures
        plan is Onnx,
        plan->sessions >= 1,
        args.sessions > 0 ==> plan->sessions == args.sessions,
        args.sessions == 0 && cpus > 0 ==> plan->sessions == cpus,
        plan->Onnx_group >= 1,
        args.group > 0 ==> plan->Onnx_group == args.group,
        plan->threads == args.threads,
{
}

/// A run embeds the first texts of a corpus, as many as it is limited to, or all
/// where it is not; sorted, it embeds the same ones by length.
pub proof fn law_workload(texts: Seq<Seq<char>>, limit: nat)
    ensures
        limit == 0 || limit >= texts.len() ==> workload(texts, limit, false) == texts,
        0 < limit <= texts.len() ==> workload(texts, limit, false).len() == limit && workload(
            texts,
            limit,
            false,
        ).is_prefix_of(texts),
        workload(texts, limit, true) == sorted_texts(workload(texts, limit, false)),
{
    if limit == texts.len() {
        assert(texts.take(limit as int) == texts);
    }
}

/// A benchmark runs the backend that it names, with what it was told, and fails only
/// for a name that there is none of, for units that there are none of, or for a
/// backend that is not built in.
pub proof fn law_build_backend(
    args: &BenchArgs,
    cpus: usize,
    built: bool,
    r: Result<BackendPlan, BackendError>,
    units: CoreMlUnits,
)
    requires
        call_ensures(build_backend, (args, cpus, built), r),
    ensures
        args.backend@ == "onnx-coreml"@ && args.coreml_units@ == lower(units_name(units))
            ==> r is Ok && r->Ok_0 == (BackendPlan::Onnx {
            provider: OnnxProvider::CoreMl {
                units,
                mlprogram: !args.coreml_nn,
                static_shapes: args.coreml_static,
            },
            sessions: 1,
            threads: args.threads,
            group: if args.group == 0 {
                1
            } else {
                args.group
            },
        }),
        args.backend@ == "onnx-direct"@ && args.coreml_units@ == lower(units_name(units))
            ==> r is Ok && r->Ok_0 == (BackendPlan::Direct {
            target: DirectProvider::CoreMl(units),
            seq_len: args.seq_len,
            batch: args.batch,
        }),
        args.backend@ == "candle-metal"@ && built ==> r is Ok && r->Ok_0 == (BackendPlan::Candle {
            half: args.half,
        }),
        args.backend@ == "candle-metal"@ && !built ==> r is Err && r->Err_0 is NoCandle,
        args.backend@ == "afm-http"@ ==> r is Ok && r->Ok_0 is Afm && r->Ok_0->concurrency == (
        if args.sessions == 0 {
            8
        } else {
            args.sessions
        }),
        args.backend@ != "onnx-cpu"@ && args.backend@ != "onnx-coreml"@ && args.backend@
            != "onnx-direct"@ && args.backend@ != "afm-http"@ && args.backend@ != "candle-metal"@
            ==> r is Err && r->Err_0 is UnknownBackend,
{
    law_units_by_name(units);
    reveal_strlit("onnx-cpu");
    reveal_strlit("onnx-coreml");
    reveal_strlit("onnx-direct");
    reveal_strlit("afm-http");
    reveal_strlit("candle-metal");
    assert("onnx-cpu"@.len() == 8 && "onnx-coreml"@.len() == 11 && "afm-http"@.len() == 8
        && "candle-metal"@.len() == 12 && "onnx-direct"@.len() == 11);
    assert("onnx-coreml"@[5] == 'c' && "onnx-direct"@[5] == 'd');
    assert("onnx-cpu"@[0] == 'o' && "afm-http"@[0] == 'a');
}

/// A server is asked for the model that is named where it is one of its own, and
/// otherwise for the one that it has.
pub proof fn law_server_model(a: Seq<char>, b: Seq<char>, model: Seq<char>)
    ensures
        afm_model_of(a + "apple"@ + b) == a + "apple"@ + b,
        afm_model_of(a + "nl"@ + b) == a + "nl"@ + b,
        afm_model_of(model) == model || afm_model_of(model) == "apple-nl-contextual-en"@,
        afm_model_of(model) != "apple-nl-contextual-en"@ ==> occurs("apple"@, model) || occurs(
            "nl"@,
            model,
        ),
{
    let _ = law_occurs(a, "apple"@, b);
    let _ = law_occurs(a, "nl"@, b);
}

/// A configuration keeps a number that is not overridden, and takes one that is.
pub proof fn law_override(
    config: &CandleConfig,
    vocab_size: Option<u64>,
    positions: Option<u64>,
    r: CandleConfig,
)
    requires
        call_ensures(CandleConfig::override_with, (config, vocab_size, positions), r),
    ensures
        vocab_size is None ==> r.vocab_size == config.vocab_size,
        positions is None ==> r.max_position_embeddings == config.max_position_embeddings,
        vocab_size matches Some(n) ==> n <= usize::MAX ==> r.vocab_size == n,
        positions matches Some(n) ==> n <= usize::MAX ==> r.max_position_embeddings == n,
{
}

/// The candle backend has two models, each under its short name and its repository.
pub proof fn law_candle_models(model: Seq<char>)
    ensures
        candle_repo_of("jina-en"@) == Some("jinaai/jina-embeddings-v2-base-en"@),
        candle_repo_of("jina-code"@) == Some("jinaai/jina-embeddings-v2-base-code"@),
        candle_repo_of(model) matches Some(repo) ==> candle_repo_of(repo) == Some(repo) && (model
            == repo || model == "jina-en"@ || model == "jina-code"@),
{
    reveal_strlit("jina-en");
    reveal_strlit("jina-code");
    reveal_strlit("jinaai/jina-embeddings-v2-base-en");
    reveal_strlit("jinaai/jina-embeddings-v2-base-code");
    assert("jina-en"@.len() == 7 && "jina-code"@.len() == 9);
    assert("jinaai/jina-embeddings-v2-base-en"@.len() == 33);
    assert("jinaai/jina-embeddings-v2-base-code"@.len() == 35);
}

} // verus!
