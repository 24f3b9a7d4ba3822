//! The files of the embedding model and the errors of fetching them. The download itself
//! (Hugging Face Hub, network) lives outside this library.
use vstd::prelude::*;

use crate::paths::{join_path, push_path};
use crate::text::{chars_eq, chars_of, push_str, strings_view, to_string};

verus! {

/// Model repository identifier
pub const MODEL_REPO: &'static str = "google/embeddinggemma-300m";

/// Tokenizer config file
pub const TOKENIZER_FILE: &'static str = "tokenizer.json";

/// Model weights file (safetensors)
pub const WEIGHTS_FILE: &'static str = "model.safetensors";

/// Config file
pub const CONFIG_FILE: &'static str = "config.json";

/// The files that make up the model, relative to its cache directory.
pub open spec fn spec_required_files() -> Seq<Seq<char>> {
    seq![
        seq!['t', 'o', 'k', 'e', 'n', 'i', 'z', 'e', 'r', '.', 'j', 's', 'o', 'n'],
        seq!['m', 'o', 'd', 'e', 'l', '.', 's', 'a', 'f', 'e', 't', 'e', 'n', 's', 'o', 'r', 's'],
        seq!['c', 'o', 'n', 'f', 'i', 'g', '.', 'j', 's', 'o', 'n'],
        seq![
            '1', '_', 'P', 'o', 'o', 'l', 'i', 'n', 'g', '/', 'c', 'o', 'n', 'f', 'i', 'g', '.', 'j',
            's', 'o', 'n',
        ],
        seq!['2', '_', 'D', 'e', 'n', 's', 'e', '/', 'c', 'o', 'n', 'f', 'i', 'g', '.', 'j', 's', 'o', 'n'],
        seq![
            '2', '_', 'D', 'e', 'n', 's', 'e', '/', 'm', 'o', 'd', 'e', 'l', '.', 's', 'a', 'f', 'e',
            't', 'e', 'n', 's', 'o', 'r', 's',
        ],
        seq!['3', '_', 'D', 'e', 'n', 's', 'e', '/', 'c', 'o', 'n', 'f', 'i', 'g', '.', 'j', 's', 'o', 'n'],
        seq![
            '3', '_', 'D', 'e', 'n', 's', 'e', '/', 'm', 'o', 'd', 'e', 'l', '.', 's', 'a', 'f', 'e',
            't', 'e', 'n', 's', 'o', 'r', 's',
        ],
    ]
}

/// All files that need to be downloaded
pub fn required_files() -> (r: Vec<String>)
    ensures
        strings_view(r@) == spec_required_files(),
{
    let names = [
        TOKENIZER_FILE,
        WEIGHTS_FILE,
        CONFIG_FILE,
        "1_Pooling/config.json",
        "2_Dense/config.json",
        "2_Dense/model.safetensors",
        "3_Dense/config.json",
        "3_Dense/model.safetensors",
    ];
    proof {
        reveal_strlit("tokenizer.json");
        reveal_strlit("model.safetensors");
        reveal_strlit("config.json");
        reveal_strlit("1_Pooling/config.json");
        reveal_strlit("2_Dense/config.json");
        reveal_strlit("2_Dense/model.safetensors");
        reveal_strlit("3_Dense/config.json");
        reveal_strlit("3_Dense/model.safetensors");
    }
    let mut out: Vec<String> = Vec::new();
    let mut k: usize = 0;
    while k < 8
        invariant
            k <= 8,
            names@.len() == 8,
            forall|j: int| 0 <= j < 8 ==> (#[trigger] names@[j])@ == spec_required_files()[j],
            strings_view(out@) == spec_required_files().take(k as int),
        decreases 8 - k,
    {
        let ghost before = out@;
        out.push(to_string(names[k]));
        assert(strings_view(out@) =~= strings_view(before).push(names@[k as int]@));
        assert(spec_required_files().take(k + 1) =~= spec_required_files().take(k as int).push(
            spec_required_files()[k as int],
        ));
        k += 1;
    }
    assert(spec_required_files().take(8) =~= spec_required_files());
    out
}

/// `f` is among the files `present`.
pub open spec fn has_file(present: Seq<String>, f: Seq<char>) -> bool {
    exists|i: int| 0 <= i < present.len() && (#[trigger] present[i])@ == f
}

/// Check if the model is already downloaded and valid: every required file is among the
/// files `present` in the cache directory (paths relative to it).
pub fn is_model_ready(present: &Vec<String>) -> (r: bool)
    ensures
        r == forall|k: int|
            0 <= k < spec_required_files().len() ==> has_file(present@, #[trigger] spec_required_files()[k]),
{
    let req = required_files();
    let mut k: usize = 0;
    while k < req.len()
        invariant
            k <= req@.len(),
            strings_view(req@) == spec_required_files(),
            forall|j: int| 0 <= j < k ==> has_file(present@, #[trigger] spec_required_files()[j]),
        decreases req@.len() - k,
    {
        assert(req@[k as int]@ == spec_required_files()[k as int]);
        let rv = chars_of(req[k].as_str());
        let mut i: usize = 0;
        let mut found = false;
        while i < present.len() && !found
            invariant
                i <= present@.len(),
                rv@ == spec_required_files()[k as int],
                found ==> has_file(present@, spec_required_files()[k as int]),
                !found ==> forall|x: int| 0 <= x < i ==> (#[trigger] present@[x])@ != rv@,
            decreases present@.len() - i,
        {
            let pv = chars_of(present[i].as_str());
            if chars_eq(&pv, &rv) {
                found = true;
            }
            i += 1;
        }
        if !found {
            return false;
        }
        k += 1;
    }
    true
}

/// Error type for download operations
pub enum DownloadError {
    /// Network error during download
    Network(String),
    /// Authentication error (401/403) - likely missing HF_TOKEN or unaccepted license
    Auth(String),
    /// Model not found (404)
    NotFound(String),
    /// Failed to parse config/tokenizer JSON
    ParseError(String),
    /// IO error during file operations (its message)
    IoError(String),
    /// Model download incomplete or corrupted
    Incomplete(String),
}

pub open spec fn auth_message(msg: Seq<char>) -> Seq<char> {
    seq![
        'A', 'u', 't', 'h', 'e', 'n', 't', 'i', 'c', 'a', 't', 'i', 'o', 'n', ' ', 'e', 'r', 'r', 'o',
        'r', ':', ' ',
    ] + msg + seq![
        '\n', 'E', 'm', 'b', 'e', 'd', 'd', 'i', 'n', 'g', 'G', 'e', 'm', 'm', 'a', ' ', 'r', 'e', 'q',
        'u', 'i', 'r', 'e', 's', ' ', 'a', ' ', 'H', 'u', 'g', 'g', 'i', 'n', 'g', ' ', 'F', 'a', 'c',
        'e', ' ', 'a', 'c', 'c', 'o', 'u', 'n', 't', ' ', 'w', 'i', 't', 'h', ' ', 'a', 'c', 'c', 'e',
        'p', 't', 'e', 'd', ' ', 'l', 'i', 'c', 'e', 'n', 's', 'e', '.', '\n', '1', '.', ' ', 'V', 'i',
        's', 'i', 't', ' ', 'h', 't', 't', 'p', 's', ':', '/', '/', 'h', 'u', 'g', 'g', 'i', 'n', 'g',
        'f', 'a', 'c', 'e', '.', 'c', 'o', '/',
    ] + MODEL_REPO@ + seq![
        '\n', '2', '.', ' ', 'L', 'o', 'g', ' ', 'i', 'n', ' ', 'a', 'n', 'd', ' ', 'a', 'c', 'k', 'n',
        'o', 'w', 'l', 'e', 'd', 'g', 'e', ' ', 't', 'h', 'e', ' ', 'l', 'i', 'c', 'e', 'n', 's', 'e',
        '\n', '3', '.', ' ', 'S', 'e', 't', ' ', 'H', 'F', '_', 'T', 'O', 'K', 'E', 'N', ' ', 'e', 'n',
        'v', 'i', 'r', 'o', 'n', 'm', 'e', 'n', 't', ' ', 'v', 'a', 'r', 'i', 'a', 'b', 'l', 'e', ' ',
        'o', 'r', ' ', 'c', 'o', 'n', 'f', 'i', 'g', 'u', 'r', 'e', ' ', 'h', 'f', '-', 'h', 'u', 'b',
        '\n', 'E', 'r', 'r', 'o', 'r', ':', ' ',
    ] + msg
}

impl DownloadError {
    /// The error's message, as it is displayed.
    pub fn message(&self) -> (r: String)
        ensures
            self matches DownloadError::Auth(m) ==> r@ == auth_message(m@),
            self matches DownloadError::Network(m) ==> r@ == seq![
                'N', 'e', 't', 'w', 'o', 'r', 'k', ' ', 'e', 'r', 'r', 'o', 'r', ':', ' ',
            ] + m@,
            self matches DownloadError::NotFound(m) ==> r@ == seq![
                'M', 'o', 'd', 'e', 'l', ' ', 'n', 'o', 't', ' ', 'f', 'o', 'u', 'n', 'd', ':', ' ',
            ] + m@,
            self matches DownloadError::ParseError(m) ==> r@ == seq![
                'C', 'o', 'n', 'f', 'i', 'g', ' ', 'p', 'a', 'r', 's', 'e', ' ', 'e', 'r', 'r', 'o',
                'r', ':', ' ',
            ] + m@,
            self matches DownloadError::IoError(m) ==> r@ == seq![
                'I', 'O', ' ', 'e', 'r', 'r', 'o', 'r', ':', ' ',
            ] + m@,
            self matches DownloadError::Incomplete(m) ==> r@ == seq![
                'D', 'o', 'w', 'n', 'l', 'o', 'a', 'd', ' ', 'i', 'n', 'c', 'o', 'm', 'p', 'l', 'e',
                't', 'e', ':', ' ',
            ] + m@,
    {
        let (head, m) = match self {
            DownloadError::Network(m) => ("Network error: ", m),
            DownloadError::Auth(m) => ("Authentication error: ", m),
            DownloadError::NotFound(m) => ("Model not found: ", m),
            DownloadError::ParseError(m) => ("Config parse error: ", m),
            DownloadError::IoError(m) => ("IO error: ", m),
            DownloadError::Incomplete(m) => ("Download incomplete: ", m),
        };
        let mut s = to_string(head);
        push_str(&mut s, m.as_str());
        if let DownloadError::Auth(_) = self {
            push_str(
                &mut s,
                "\nEmbeddingGemma requires a Hugging Face account with accepted license.\n1. Visit https://huggingface.co/",
            );
            push_str(&mut s, MODEL_REPO);
            push_str(
                &mut s,
                "\n2. Log in and acknowledge the license\n3. Set HF_TOKEN environment variable or configure hf-hub\nError: ",
            );
            push_str(&mut s, m.as_str());
        }
        proof {
            reveal_strlit("Network error: ");
            reveal_strlit("Authentication error: ");
            reveal_strlit("Model not found: ");
            reveal_strlit("Config parse error: ");
            reveal_strlit("IO error: ");
            reveal_strlit("Download incomplete: ");
            reveal_strlit(
                "\nEmbeddingGemma requires a Hugging Face account with accepted license.\n1. Visit https://huggingface.co/",
            );
            reveal_strlit(
                "\n2. Log in and acknowledge the license\n3. Set HF_TOKEN environment variable or configure hf-hub\nError: ",
            );
        }
        assert(self matches DownloadError::Auth(m0) ==> s@ =~= auth_message(m0@));
        s
    }
}


/// `notectl/search/models` under a cache directory.
pub open spec fn models_dir(base: Seq<char>) -> Seq<char> {
    join_path(
        join_path(join_path(base, seq!['n', 'o', 't', 'e', 'c', 't', 'l']), seq!['s', 'e', 'a', 'r', 'c', 'h']),
        seq!['m', 'o', 'd', 'e', 'l', 's'],
    )
}

/// The model cache directory under the cache directory `base`.
pub fn models_dir_in(base: &str) -> (r: String)
    ensures
        r@ == models_dir(base@),
{
    let mut p = to_string(base);
    push_path(&mut p, "notectl");
    push_path(&mut p, "search");
    push_path(&mut p, "models");
    proof {
        reveal_strlit("notectl");
        reveal_strlit("search");
        reveal_strlit("models");
    }
    p
}

/// `dirs::cache_dir`, the user's cache directory when the platform has one, as text. It
/// depends on the platform and the environment; nothing is stated of it.
#[verifier::external_body]
fn user_cache_dir() -> Option<String> {
    dirs::cache_dir().map(|p| p.to_string_lossy().to_string())
}

/// Get the default model cache directory (`~/.cache/notectl/search/models/`): under the
/// user's cache directory, else under `.cache`.
pub fn default_cache_dir() -> (r: String)
    ensures
        exists|base: Seq<char>| r@ == #[trigger] models_dir(base),
{
    match user_cache_dir() {
        Some(b) => models_dir_in(b.as_str()),
        None => models_dir_in(".cache"),
    }
}

} // verus!
