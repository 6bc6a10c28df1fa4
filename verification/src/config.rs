//! Configuration model and path helpers.
//!
//! The configuration file itself is parsed by the surrounding program; this
//! module holds the typed configuration, its defaults, and the verified part
//! of path resolution. Environment and home-directory expansion depend on
//! the process environment and stands behind a trusted wrapper.

use vstd::prelude::*;
use vstd::string::StrSliceExecFns;
use vstd::string::StringExecFns;

verus! {

/// Where the corpus and the two index directories live.
#[derive(Debug, Clone)]
pub struct DataConfig {
    pub raw_txt_dir: String,
    pub tantivy_index_dir: String,
    pub lancedb_index_dir: String,
}

/// Query-side limits.
#[derive(Debug, Clone, Copy, PartialEq, Eq, Structural)]
pub struct SearchConfig {
    pub default_limit: usize,
    pub max_limit: usize,
    pub fuzzy_max_distance: u8,
}

/// The facet categories offered by the corpus.
#[derive(Debug, Clone)]
pub struct FacetConfig {
    pub categories: Vec<String>,
}

/// The embedding model and its dimensionality.
#[derive(Debug, Clone)]
pub struct EmbeddingConfig {
    pub dimension: usize,
    pub model: String,
}

/// Where a serving process listens.
#[derive(Debug, Clone)]
pub struct ServerConfig {
    pub host: String,
    pub port: u16,
}

/// The whole configuration.
#[derive(Debug, Clone)]
pub struct Config {
    pub data: DataConfig,
    pub search: SearchConfig,
    pub facets: FacetConfig,
    pub embedding: EmbeddingConfig,
    pub server: ServerConfig,
}

impl Default for Config {
    fn default() -> (r: Self)
        ensures
            r.data.raw_txt_dir@ == "data/raw/txt"@,
            r.data.tantivy_index_dir@ == "data/tantivy_index"@,
            r.data.lancedb_index_dir@ == "data/lancedb_index"@,
            r.search.default_limit == 5,
            r.search.max_limit == 100,
            r.search.fuzzy_max_distance == 4,
            r.facets.categories@.len() == 4,
            r.facets.categories@[0]@ == "tech/math"@,
            r.facets.categories@[1]@ == "tech/it"@,
            r.facets.categories@[2]@ == "lit/fiction"@,
            r.facets.categories@[3]@ == "lit/romcom"@,
            r.embedding.dimension == 1536,
            r.embedding.model@ == "text-embedding-3-small"@,
            r.server.host@ == "127.0.0.1"@,
            r.server.port == 8080,
    {
        let mut categories: Vec<String> = Vec::new();
        categories.push(String::from_str("tech/math"));
        categories.push(String::from_str("tech/it"));
        categories.push(String::from_str("lit/fiction"));
        categories.push(String::from_str("lit/romcom"));
        Config {
            data: DataConfig {
                raw_txt_dir: String::from_str("data/raw/txt"),
                tantivy_index_dir: String::from_str("data/tantivy_index"),
                lancedb_index_dir: String::from_str("data/lancedb_index"),
            },
            search: SearchConfig { default_limit: 5, max_limit: 100, fuzzy_max_distance: 4 },
            facets: FacetConfig { categories },
            embedding: EmbeddingConfig {
                dimension: 1536,
                model: String::from_str("text-embedding-3-small"),
            },
            server: ServerConfig { host: String::from_str("127.0.0.1"), port: 8080 },
        }
    }
}

impl Config {
    pub fn get_raw_txt_dir(&self) -> (r: String)
        ensures
            r@ == self.data.raw_txt_dir@,
    {
        self.data.raw_txt_dir.clone()
    }

    pub fn get_tantivy_index_dir(&self) -> (r: String)
        ensures
            r@ == self.data.tantivy_index_dir@,
    {
        self.data.tantivy_index_dir.clone()
    }

    pub fn get_lancedb_index_dir(&self) -> (r: String)
        ensures
            r@ == self.data.lancedb_index_dir@,
    {
        self.data.lancedb_index_dir.clone()
    }

    pub fn get_facet_categories(&self) -> (r: &Vec<String>)
        ensures
            r@ == self.facets.categories@,
    {
        &self.facets.categories
    }
}

/// Expand a user-provided path string: `${VAR}` and `$VAR` from the
/// environment (kept as written if a variable is unset) and a leading `~` to
/// the home directory. The result depends on the process environment.
///
/// Relies on `shellexpand::env` and `shellexpand::tilde`.
#[verifier::external_body]
pub fn expand_path(input: &str) -> String {
    let expanded_env = shellexpand::env(input).unwrap_or(std::borrow::Cow::Borrowed(input));
    shellexpand::tilde(expanded_env.as_ref()).into_owned()
}

/// `p` if it is absolute, else `base` and `p` joined with one separator.
pub fn join_if_relative(base: &str, p: &str) -> (r: String)
    ensures
        r@ == (if p@.len() >= 1 && p@[0] == '/' {
            p@
        } else {
            base@ + seq!['/'] + p@
        }),
{
    if p.unicode_len() >= 1 && p.get_char(0) == '/' {
        p.to_owned()
    } else {
        let mut r = base.to_owned();
        r.append("/");
        r.append(p);
        proof {
            reveal_strlit("/");
            assert("/"@ =~= seq!['/']);
        }
        r
    }
}

/// `r` joins `base` and some expansion `e` of the input: `e` itself when it
/// is absolute, else `base` and `e` with one separator.
pub open spec fn resolved_from(base: Seq<char>, r: Seq<char>, e: Seq<char>) -> bool {
    r == (if e.len() >= 1 && e[0] == '/' {
        e
    } else {
        base + seq!['/'] + e
    })
}

/// Resolve a possibly relative path against a base directory after
/// environment and home expansion. Whatever the environment made of the
/// input, the result joins it against `base` exactly as `join_if_relative`
/// says.
pub fn resolve_with_base(base: &str, p: &str) -> (r: String)
    ensures
        exists|e: Seq<char>| resolved_from(base@, r@, e),
{
    let expanded = expand_path(p);
    let r = join_if_relative(base, expanded.as_str());
    proof {
        assert(resolved_from(base@, r@, expanded@));
    }
    r
}

} // verus!
