//! The Apple-GPU embedding backend: its models and what their configuration says.

use vstd::prelude::*;
use vstd::string::*;

use crate::embedder::{is_slug, model_of};
use crate::json::{json_u64, json_u64_field};
use crate::sorted::same;

verus! {

/// How the hidden states of the tokens become one vector.
#[derive(Debug, Clone, Copy, PartialEq, Eq, Structural)]
pub enum Pooling {
    /// The mean over the tokens.
    Mean,
    /// The hidden state of the first token.
    Cls,
}

/// A model of the MLX backend.
#[derive(Debug, Clone, Copy)]
pub struct MlxModelSpec {
    pub short_id: &'static str,
    pub repo: &'static str,
    pub dim: usize,
    pub pooling: Pooling,
}

/// The model of a model of the MLX backend.
pub struct MlxModelView {
    pub short_id: Seq<char>,
    pub repo: Seq<char>,
    pub dim: nat,
    pub pooling: Pooling,
}

impl View for MlxModelSpec {
    type V = MlxModelView;

    open spec fn view(&self) -> MlxModelView {
        MlxModelView {
            short_id: self.short_id@,
            repo: self.repo@,
            dim: self.dim as nat,
            pooling: self.pooling,
        }
    }
}

/// The MLX backend has no model of this name.
#[derive(Debug)]
pub struct UnknownMlxModel {
    pub name: String,
}

impl UnknownMlxModel {
    /// The error in words.
    pub fn message(&self) -> (r: String)
        ensures
            r@ == "unknown mlx model: "@ + self.name@ + " (try bge-small | minilm | bge-base)"@,
    {
        let mut s = "unknown mlx model: ".to_owned();
        s.append(self.name.as_str());
        s.append(" (try bge-small | minilm | bge-base)");
        s
    }
}

/// The MLX model of a name.
pub open spec fn mlx_model_of(name: Seq<char>) -> Option<MlxModelView> {
    if name == "bge-small"@ || name == "BAAI/bge-small-en-v1.5"@ {
        Some(
            MlxModelView {
                short_id: "mlx-bge-small"@,
                repo: "BAAI/bge-small-en-v1.5"@,
                dim: 384,
                pooling: Pooling::Cls,
            },
        )
    } else if name == "minilm"@ || name == "sentence-transformers/all-MiniLM-L6-v2"@ {
        Some(
            MlxModelView {
                short_id: "mlx-minilm"@,
                repo: "sentence-transformers/all-MiniLM-L6-v2"@,
                dim: 384,
                pooling: Pooling::Mean,
            },
        )
    } else if name == "bge-base"@ || name == "BAAI/bge-base-en-v1.5"@ {
        Some(
            MlxModelView {
                short_id: "mlx-bge-base"@,
                repo: "BAAI/bge-base-en-v1.5"@,
                dim: 768,
                pooling: Pooling::Cls,
            },
        )
    } else {
        None
    }
}

/// Resolve a model name to its MLX spec, without loading anything.
pub fn parse_mlx_model(name: &str) -> (r: Result<MlxModelSpec, UnknownMlxModel>)
    ensures
        match mlx_model_of(name@) {
            Some(m) => r matches Ok(s) && s@ == m,
            None => r matches Err(e) && e.name@ == name@,
        },
{
    if same(name, "bge-small") || same(name, "BAAI/bge-small-en-v1.5") {
        return Ok(
            MlxModelSpec {
                short_id: "mlx-bge-small",
                repo: "BAAI/bge-small-en-v1.5",
                dim: 384,
                pooling: Pooling::Cls,
            },
        );
    }
    if same(name, "minilm") || same(name, "sentence-transformers/all-MiniLM-L6-v2") {
        return Ok(
            MlxModelSpec {
                short_id: "mlx-minilm",
                repo: "sentence-transformers/all-MiniLM-L6-v2",
                dim: 384,
                pooling: Pooling::Mean,
            },
        );
    }
    if same(name, "bge-base") || same(name, "BAAI/bge-base-en-v1.5") {
        return Ok(
            MlxModelSpec {
                short_id: "mlx-bge-base",
                repo: "BAAI/bge-base-en-v1.5",
                dim: 768,
                pooling: Pooling::Cls,
            },
        );
    }
    Err(UnknownMlxModel { name: name.to_owned() })
}

/// The caches of the two backends live under different refs, and the short ids of
/// the MLX models can be segments of a ref name.
pub proof fn law_mlx_refs_are_separate(name: Seq<char>, other: Seq<char>)
    requires
        mlx_model_of(name) is Some,
        model_of(other) is Some,
    ensures
        is_slug(mlx_model_of(name)->0.short_id),
        mlx_model_of(name)->0.short_id != model_of(other)->0.short_id,
{
    reveal_strlit("mlx-bge-small");
    reveal_strlit("mlx-minilm");
    reveal_strlit("mlx-bge-base");
    reveal_strlit("bge-small-q");
    reveal_strlit("bge-small");
    reveal_strlit("bge-base");
    reveal_strlit("minilm");
    reveal_strlit("jina-code");
    let mine = mlx_model_of(name)->0.short_id;
    let theirs = model_of(other)->0.short_id;
    assert(mine[0] == 'm' && mine[1] == 'l');
    assert(theirs[1] != 'l');
}

/// A model that both backends have is of the same dimension in both.
pub proof fn law_mlx_dim_agrees(name: Seq<char>)
    requires
        mlx_model_of(name) is Some,
    ensures
        model_of(name) is Some,
        model_of(name)->0.dim == mlx_model_of(name)->0.dim,
        model_of(name)->0.canonical_id == mlx_model_of(name)->0.repo,
{
    reveal_strlit("bge-small-q");
    reveal_strlit("bge-small");
    reveal_strlit("bge-base");
    reveal_strlit("minilm");
    reveal_strlit("BAAI/bge-small-en-v1.5-quantized");
    reveal_strlit("BAAI/bge-small-en-v1.5");
    reveal_strlit("BAAI/bge-base-en-v1.5");
    reveal_strlit("sentence-transformers/all-MiniLM-L6-v2");
    assert("bge-small-q"@.len() == 11);
    assert("bge-small"@.len() == 9);
    assert("bge-base"@.len() == 8);
    assert("minilm"@.len() == 6);
    assert("BAAI/bge-small-en-v1.5-quantized"@.len() == 32);
    assert("BAAI/bge-small-en-v1.5"@.len() == 22);
    assert("BAAI/bge-base-en-v1.5"@.len() == 21);
    assert("sentence-transformers/all-MiniLM-L6-v2"@.len() == 38);
}

/// The shape of a BERT encoder.
#[derive(Debug, Clone, Copy, PartialEq, Eq, Structural)]
pub struct BertConfig {
    pub layers: usize,
    pub heads: usize,
}

/// How many layers and heads an encoder has where its configuration is silent.
pub const DEFAULT_BERT_SIZE: u64 = 12;

/// A number, or the default where there is none.
pub open spec fn or_default(value: Option<u64>) -> u64 {
    match value {
        Some(n) => n,
        None => DEFAULT_BERT_SIZE,
    }
}

impl BertConfig {
    /// The shape of an encoder whose configuration gives these numbers.
    pub fn from_fields(layers: Option<u64>, heads: Option<u64>) -> (r: BertConfig)
        ensures
            r.layers == or_default(layers) as usize,
            r.heads == or_default(heads) as usize,
    {
        let layers: u64 = match layers {
            Some(n) => n,
            None => DEFAULT_BERT_SIZE,
        };
        let heads: u64 = match heads {
            Some(n) => n,
            None => DEFAULT_BERT_SIZE,
        };
        BertConfig { layers: layers as usize, heads: heads as usize }
    }

    /// Reads the shape of an encoder from its `config.json`; `None` where that is
    /// not JSON.
    pub fn from_json(text: &[u8]) -> (r: Option<BertConfig>)
        ensures
            r is Some <==> json_u64(text@, "num_hidden_layers"@) is Some && json_u64(
                text@,
                "num_attention_heads"@,
            ) is Some,
            r matches Some(c) ==> c.layers == or_default(
                json_u64(text@, "num_hidden_layers"@)->0,
            ) as usize && c.heads == or_default(
                json_u64(text@, "num_attention_heads"@)->0,
            ) as usize,
    {
        let layers: Option<u64> = match json_u64_field(text, "num_hidden_layers") {
            Some(v) => v,
            None => {
                return None;
            },
        };
        let heads: Option<u64> = match json_u64_field(text, "num_attention_heads") {
            Some(v) => v,
            None => {
                return None;
            },
        };
        Some(BertConfig::from_fields(layers, heads))
    }
}

/// The text that describes the MLX backend.
pub open spec fn mlx_text(short_id: Seq<char>) -> Seq<char> {
    "mlx/apple-gpu \u{b7} "@ + short_id
        + " \u{b7} GPU buffer-cache cap 512 MB \u{b7} ~0.4 GB peak \u{b7} tweak: --backend cpu to force CPU, --batch-size N for batch size"@
}

impl MlxModelSpec {
    /// One-line summary of the backend and how to tweak it.
    pub fn describe(&self) -> (r: String)
        ensures
            r@ == mlx_text(self.short_id@),
    {
        let mut s = "mlx/apple-gpu \u{b7} ".to_owned();
        s.append(self.short_id);
        s.append(
            " \u{b7} GPU buffer-cache cap 512 MB \u{b7} ~0.4 GB peak \u{b7} tweak: --backend cpu to force CPU, --batch-size N for batch size",
        );
        s
    }
}

/// How many bytes of buffers the MLX backend may keep for reuse.
pub const MLX_CACHE_BYTES: usize = 0x2000_0000;

/// How many tokens of a text an encoder takes.
pub const MAX_TOKENS: usize = 512;

/// Where models are fetched from.
pub const HF_ENDPOINT: &'static str = "https://huggingface.co";

/// The endpoint to set where the environment gives none, or an empty one, which
/// would not be a valid address.
pub fn missing_endpoint(value: Option<&str>) -> (r: Option<&'static str>)
    ensures
        match value {
            Some(v) => if v@.len() == 0 {
                r matches Some(e) && e@ == HF_ENDPOINT@
            } else {
                r is None
            },
            None => r matches Some(e) && e@ == HF_ENDPOINT@,
        },
{
    match value {
        Some(v) => if v.is_empty() {
            Some(HF_ENDPOINT)
        } else {
            None
        },
        None => Some(HF_ENDPOINT),
    }
}

/// The models of the GPU are the small and the base BGE encoder and MiniLM. Their ids
/// are those of the CPU behind `mlx-`, and only MiniLM takes the mean of its tokens.
pub proof fn law_mlx_models(name: Seq<char>)
    ensures
        mlx_model_of(name) is Some <==> seq![
            "bge-small"@,
            "minilm"@,
            "bge-base"@,
            "BAAI/bge-small-en-v1.5"@,
            "sentence-transformers/all-MiniLM-L6-v2"@,
            "BAAI/bge-base-en-v1.5"@,
        ].contains(name),
        mlx_model_of(name) matches Some(m) ==> {
            &&& m.short_id == "mlx-"@ + model_of(name)->0.short_id
            &&& m.pooling == Pooling::Mean <==> model_of(name)->0.short_id == "minilm"@
        },
{
    let names = seq![
        "bge-small"@,
        "minilm"@,
        "bge-base"@,
        "BAAI/bge-small-en-v1.5"@,
        "sentence-transformers/all-MiniLM-L6-v2"@,
        "BAAI/bge-base-en-v1.5"@,
    ];
    assert(names[0] == "bge-small"@ && names[1] == "minilm"@ && names[2] == "bge-base"@ && names[3]
        == "BAAI/bge-small-en-v1.5"@ && names[4] == "sentence-transformers/all-MiniLM-L6-v2"@
        && names[5] == "BAAI/bge-base-en-v1.5"@);
    if mlx_model_of(name) is Some {
        law_mlx_dim_agrees(name);
        reveal_strlit("mlx-");
        reveal_strlit("bge-small");
        reveal_strlit("minilm");
        reveal_strlit("bge-base");
        reveal_strlit("mlx-bge-small");
        reveal_strlit("mlx-minilm");
        reveal_strlit("mlx-bge-base");
        reveal_strlit("bge-small-q");
        reveal_strlit("BAAI/bge-small-en-v1.5");
        reveal_strlit("BAAI/bge-base-en-v1.5");
        reveal_strlit("BAAI/bge-small-en-v1.5-quantized");
        reveal_strlit("sentence-transformers/all-MiniLM-L6-v2");
        assert("mlx-"@ + "bge-small"@ =~= "mlx-bge-small"@);
        assert("mlx-"@ + "minilm"@ =~= "mlx-minilm"@);
        assert("mlx-"@ + "bge-base"@ =~= "mlx-bge-base"@);
        assert("bge-small"@.len() == 9 && "minilm"@.len() == 6 && "bge-base"@.len() == 8);
        assert("bge-small-q"@.len() == 11);
        assert("BAAI/bge-small-en-v1.5"@.len() == 22 && "BAAI/bge-base-en-v1.5"@.len() == 21);
        assert("BAAI/bge-small-en-v1.5-quantized"@.len() == 32);
        assert("sentence-transformers/all-MiniLM-L6-v2"@.len() == 38);
    }
}

/// The shape of an encoder is what its configuration says, and twelve layers and heads
/// where that is silent.
pub proof fn law_shape_of_encoder(
    layers: Option<u64>,
    heads: Option<u64>,
    r: BertConfig,
)
    requires
        call_ensures(BertConfig::from_fields, (layers, heads), r),
    ensures
        layers matches Some(n) ==> n <= usize::MAX ==> r.layers == n,
        heads matches Some(n) ==> n <= usize::MAX ==> r.heads == n,
        layers is None ==> r.layers == 12,
        heads is None ==> r.heads == 12,
{
}

} // verus!
