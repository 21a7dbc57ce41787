use vstd::prelude::*;

use crate::config::ResolvedConfig;
use crate::env::EnvMap;
use crate::hashing::{
    addressable, blake3_digest, digest_text, framed, hex_digit, is_lower_hex_char, lemma_framing_is_injective, lower_hex,
    stable_hash,
};
use crate::util::{decimal, decimal_text, join, join_path, lemma_decimal_text_injective, push_text};

verus! {

#[verifier::external_type_specification]
#[verifier::external_body]
pub struct ExJsonError(serde_json::Error);

/// How serde_json writes a character inside a JSON string: `"` and `\\`
/// escaped with a backslash, the control characters with a short escape
/// (`\\b`, `\\t`, `\\n`, `\\f`, `\\r`) or as `\\u00` and two lowercase
/// hexadecimal digits, every other character as itself.
pub open spec fn json_char(c: char) -> Seq<char> {
    if c == '"' {
        seq!['\\', '"']
    } else if c == '\\' {
        seq!['\\', '\\']
    } else if c == '\u{8}' {
        seq!['\\', 'b']
    } else if c == '\t' {
        seq!['\\', 't']
    } else if c == '\n' {
        seq!['\\', 'n']
    } else if c == '\u{c}' {
        seq!['\\', 'f']
    } else if c == '\r' {
        seq!['\\', 'r']
    } else if (c as u32) < 0x20 {
        seq!['\\', 'u', '0', '0', hex_digit((c as u32) as int / 16), hex_digit((c as u32) as int % 16)]
    } else {
        seq![c]
    }
}

/// The characters of `text`, each as `json_char` writes it.
pub open spec fn json_escaped(text: Seq<char>) -> Seq<char>
    decreases text.len(),
{
    if text.len() == 0 {
        Seq::empty()
    } else {
        json_escaped(text.drop_last()) + json_char(text.last())
    }
}

/// `text` as a JSON string.
pub open spec fn json_string(text: Seq<char>) -> Seq<char> {
    seq!['"'] + json_escaped(text) + seq!['"']
}

/// The members of a JSON object, `"name":"value"`, separated by commas.
pub open spec fn json_members(pairs: Seq<(Seq<char>, Seq<char>)>) -> Seq<char>
    decreases pairs.len(),
{
    if pairs.len() == 0 {
        Seq::empty()
    } else {
        let member = json_string(pairs.last().0) + seq![':'] + json_string(pairs.last().1);
        if pairs.len() == 1 {
            member
        } else {
            json_members(pairs.drop_last()) + seq![','] + member
        }
    }
}

/// The JSON object serde_json writes for string pairs, in their order.
pub open spec fn json_object(pairs: Seq<(Seq<char>, Seq<char>)>) -> Seq<char> {
    seq!['{'] + json_members(pairs) + seq!['}']
}

/// Writes the variables as a JSON object with serde_json's compact
/// serializer, through `serde::Serializer::collect_map`, which writes the
/// entries in the order given; the variables are held in name order, the
/// order in which `serde_json::to_string` writes a `BTreeMap` of them. The
/// contract states the text serde_json's formatter writes for string keys
/// and values (`{`, members `"k":"v"` joined by `,`, `}`, with its string
/// escapes). serde_json fails only when a `Serialize` impl fails, a map key
/// is not a string, or the writer fails, so writing strings into a `Vec`
/// succeeds; it writes only valid UTF-8, so the lossy conversion to `String`
/// changes nothing.
#[verifier::external_body]
fn env_to_json(env: &EnvMap) -> (json: Result<String, serde_json::Error>)
    ensures
        json is Ok,
        json matches Ok(text) ==> text@ == json_object(env.pairs()),
{
    let mut out: Vec<u8> = Vec::new();
    let mut serializer = serde_json::Serializer::new(&mut out);
    match serde::Serializer::collect_map(&mut serializer, env.entries().iter().map(|entry| (&entry.0, &entry.1))) {
        Ok(()) => Ok(String::from_utf8_lossy(&out).into_owned()),
        Err(error) => Err(error),
    }
}

/// The JSON texts of the settings that enter the cache key besides the
/// hook commands: the oracle settings, the pinned dependencies and the
/// setup-failure policy, as `serde_json` writes them.
#[derive(Clone, Debug)]
pub struct SerializedSettings {
    pub oracle: String,
    pub pins: String,
    pub setup_failure: String,
}

/// An optional setting, or the empty text.
pub open spec fn or_empty(value: Option<String>) -> Seq<char> {
    match value {
        Some(v) => v@,
        None => Seq::empty(),
    }
}

/// What the cache key of an evaluation hashes, in order.
pub open spec fn cache_key_parts(
    config: ResolvedConfig,
    sha: Seq<char>,
    env_text: Seq<char>,
    settings: SerializedSettings,
) -> Seq<Seq<char>> {
    seq![
        config.subject.repo@,
        sha,
        or_empty(config.hooks.setup),
        config.hooks.run@,
        or_empty(config.hooks.compare),
        env_text,
        settings.oracle@,
        settings.pins@,
        settings.setup_failure@,
        decimal_text(config.execution.retries as nat),
    ]
}

/// The cache key of an evaluation of `sha` under `config`.
pub open spec fn cache_key_text(config: ResolvedConfig, sha: Seq<char>, settings: SerializedSettings) -> Seq<char> {
    digest_text(cache_key_parts(config, sha, json_object(config.hooks.env.pairs()), settings))
}

/// An optional setting, or the empty text.
pub fn option_text(value: &Option<String>) -> (text: &str)
    ensures
        text@ == or_empty(*value),
{
    proof {
        reveal_strlit("");
    }
    match value {
        Some(v) => v.as_str(),
        None => "",
    }
}

/// The key under which a completed evaluation of `sha` is cached: a hash of
/// the repository, the commit, the hooks, the environment, the oracle and
/// setup-failure settings, the pins and the number of retries: everything
/// that decides a classification. Writing the environment as JSON cannot
/// fail, so a key is always produced.
pub fn cache_key(config: &ResolvedConfig, sha: &str, settings: &SerializedSettings) -> (key: Result<String, serde_json::Error>)
    ensures
        key is Ok,
        key matches Ok(k) ==> k@ == cache_key_text(*config, sha@, *settings)
            && k@.len() == 64 && forall|i: int| 0 <= i < k@.len() ==> is_lower_hex_char(#[trigger] k@[i]),
{
    let env = match env_to_json(&config.hooks.env) {
        Ok(text) => text,
        Err(error) => return Err(error),
    };
    let retries = decimal(config.execution.retries as u128);
    let parts: [&str; 10] = [
        config.subject.repo.as_str(),
        sha,
        option_text(&config.hooks.setup),
        config.hooks.run.as_str(),
        option_text(&config.hooks.compare),
        env.as_str(),
        settings.oracle.as_str(),
        settings.pins.as_str(),
        settings.setup_failure.as_str(),
        retries.as_str(),
    ];
    proof {
        assert(parts@.map_values(|p: &str| p@) =~= cache_key_parts(*config, sha@, env@, *settings));
    }
    Ok(stable_hash(parts.as_slice()))
}

/// Where the cached evaluation of `sha` is stored:
/// `<cache_dir>/evaluations/<key>.json`; always produced.
pub fn cache_path(config: &ResolvedConfig, sha: &str, settings: &SerializedSettings) -> (path: Result<String, serde_json::Error>)
    ensures
        path is Ok,
        path matches Ok(p) ==> p@ == join_path(
            join_path(config.execution.cache_dir@, "evaluations"@),
            cache_key_text(*config, sha@, *settings) + ".json"@,
        ),
{
    proof {
        reveal_strlit("evaluations");
        reveal_strlit(".json");
    }
    let key = match cache_key(config, sha, settings) {
        Ok(k) => k,
        Err(error) => return Err(error),
    };
    let mut name = key;
    push_text(&mut name, ".json");
    let evaluations = join(config.execution.cache_dir.as_str(), "evaluations");
    Ok(join(evaluations.as_str(), name.as_str()))
}

/// The cache key depends on the hook environment only through the variables
/// it holds: two configurations that agree on the hashed settings and hold
/// the same variables, in whatever order they were set, share a key.
pub proof fn lemma_cache_key_ignores_env_order(
    a: ResolvedConfig,
    b: ResolvedConfig,
    sha: Seq<char>,
    settings: SerializedSettings,
)
    requires
        a.subject.repo@ == b.subject.repo@,
        or_empty(a.hooks.setup) == or_empty(b.hooks.setup),
        a.hooks.run@ == b.hooks.run@,
        or_empty(a.hooks.compare) == or_empty(b.hooks.compare),
        a.execution.retries == b.execution.retries,
        a.hooks.env.well_formed(),
        b.hooks.env.well_formed(),
        a.hooks.env@ == b.hooks.env@,
    ensures
        cache_key_text(a, sha, settings) == cache_key_text(b, sha, settings),
{
    a.hooks.env.lemma_same_view_same_pairs(&b.hooks.env);
    assert(cache_key_parts(a, sha, json_object(a.hooks.env.pairs()), settings) =~= cache_key_parts(
        b,
        sha,
        json_object(b.hooks.env.pairs()),
        settings,
    ));
}


/// The parts of a cache key as the UTF-8 bytes that are framed and digested.
pub open spec fn cache_key_bytes(config: ResolvedConfig, sha: Seq<char>, settings: SerializedSettings) -> Seq<Seq<u8>> {
    cache_key_parts(config, sha, json_object(config.hooks.env.pairs()), settings).map_values(
        |p: Seq<char>| vstd::utf8::encode_utf8(p),
    )
}

/// The bytes the cache key of an evaluation of `sha` under `config` digests.
pub open spec fn cache_key_input(config: ResolvedConfig, sha: Seq<char>, settings: SerializedSettings) -> Seq<u8> {
    framed(cache_key_bytes(config, sha, settings))
}

/// Evaluations under different numbers of retries are cached apart: the
/// bytes their cache keys digest differ, so the keys, BLAKE3 digests of
/// those bytes in hexadecimal, can agree only where BLAKE3 gives two inputs
/// one digest. (Each part must be short enough for its length to be framed.)
pub proof fn lemma_cache_key_covers_retries(
    a: ResolvedConfig,
    b: ResolvedConfig,
    sha: Seq<char>,
    settings: SerializedSettings,
)
    requires
        a.execution.retries != b.execution.retries,
        addressable(cache_key_bytes(a, sha, settings)),
        addressable(cache_key_bytes(b, sha, settings)),
    ensures
        cache_key_input(a, sha, settings) != cache_key_input(b, sha, settings),
        cache_key_text(a, sha, settings) == lower_hex(blake3_digest(cache_key_input(a, sha, settings))),
        cache_key_text(b, sha, settings) == lower_hex(blake3_digest(cache_key_input(b, sha, settings))),
{
    if cache_key_input(a, sha, settings) == cache_key_input(b, sha, settings) {
        lemma_framing_is_injective(cache_key_bytes(a, sha, settings), cache_key_bytes(b, sha, settings));
        let ta = decimal_text(a.execution.retries as nat);
        let tb = decimal_text(b.execution.retries as nat);
        assert(cache_key_bytes(a, sha, settings)[9] == vstd::utf8::encode_utf8(ta));
        assert(cache_key_bytes(b, sha, settings)[9] == vstd::utf8::encode_utf8(tb));
        vstd::utf8::encode_utf8_decode_utf8(ta);
        vstd::utf8::encode_utf8_decode_utf8(tb);
        lemma_decimal_text_injective(a.execution.retries as nat, b.execution.retries as nat);
    }
}


/// The bytes a cache key digests determine everything it covers: two keys
/// with the same input agree on the repository, the commit, the setup, run
/// and compare hooks, the environment, the oracle, pin and setup-failure
/// settings and the number of retries. (Each part must be short enough for
/// its length to be framed.)
pub proof fn lemma_cache_key_input_determines_parts(
    a: ResolvedConfig,
    sha_a: Seq<char>,
    settings_a: SerializedSettings,
    b: ResolvedConfig,
    sha_b: Seq<char>,
    settings_b: SerializedSettings,
)
    requires
        addressable(cache_key_bytes(a, sha_a, settings_a)),
        addressable(cache_key_bytes(b, sha_b, settings_b)),
        cache_key_input(a, sha_a, settings_a) == cache_key_input(b, sha_b, settings_b),
    ensures
        a.subject.repo@ == b.subject.repo@,
        sha_a == sha_b,
        or_empty(a.hooks.setup) == or_empty(b.hooks.setup),
        a.hooks.run@ == b.hooks.run@,
        or_empty(a.hooks.compare) == or_empty(b.hooks.compare),
        json_object(a.hooks.env.pairs()) == json_object(b.hooks.env.pairs()),
        settings_a.oracle@ == settings_b.oracle@,
        settings_a.pins@ == settings_b.pins@,
        settings_a.setup_failure@ == settings_b.setup_failure@,
        a.execution.retries == b.execution.retries,
{
    let pa = cache_key_parts(a, sha_a, json_object(a.hooks.env.pairs()), settings_a);
    let pb = cache_key_parts(b, sha_b, json_object(b.hooks.env.pairs()), settings_b);
    lemma_framing_is_injective(cache_key_bytes(a, sha_a, settings_a), cache_key_bytes(b, sha_b, settings_b));
    assert forall|i: int| 0 <= i < 10 implies pa[i] == pb[i] by {
        assert(cache_key_bytes(a, sha_a, settings_a)[i] == vstd::utf8::encode_utf8(pa[i]));
        assert(cache_key_bytes(b, sha_b, settings_b)[i] == vstd::utf8::encode_utf8(pb[i]));
        vstd::utf8::encode_utf8_decode_utf8(pa[i]);
        vstd::utf8::encode_utf8_decode_utf8(pb[i]);
    }
    assert(pa[0] == pb[0]);
    assert(pa[1] == pb[1]);
    assert(pa[2] == pb[2]);
    assert(pa[3] == pb[3]);
    assert(pa[4] == pb[4]);
    assert(pa[5] == pb[5]);
    assert(pa[6] == pb[6]);
    assert(pa[7] == pb[7]);
    assert(pa[8] == pb[8]);
    assert(pa[9] == pb[9]);
    lemma_decimal_text_injective(a.execution.retries as nat, b.execution.retries as nat);
}

/// Evaluations made with different setup hooks are cached apart: when the
/// setup hooks differ as texts (no hook counting as the empty text), the
/// bytes their cache keys digest differ, so the keys can agree only where
/// BLAKE3 gives two inputs one digest.
pub proof fn lemma_cache_key_covers_setup(
    a: ResolvedConfig,
    b: ResolvedConfig,
    sha: Seq<char>,
    settings: SerializedSettings,
)
    requires
        or_empty(a.hooks.setup) != or_empty(b.hooks.setup),
        addressable(cache_key_bytes(a, sha, settings)),
        addressable(cache_key_bytes(b, sha, settings)),
    ensures
        cache_key_input(a, sha, settings) != cache_key_input(b, sha, settings),
        cache_key_text(a, sha, settings) == lower_hex(blake3_digest(cache_key_input(a, sha, settings))),
        cache_key_text(b, sha, settings) == lower_hex(blake3_digest(cache_key_input(b, sha, settings))),
{
    if cache_key_input(a, sha, settings) == cache_key_input(b, sha, settings) {
        lemma_cache_key_input_determines_parts(a, sha, settings, b, sha, settings);
    }
}

} // verus!
