//! The known-name override table: the fixed mapping from a package's
//! install name to the module name it is imported under, for the packages
//! where neither the name itself nor the hyphen convention gives the right
//! import name.  Some entries lean on the automatically derived aliases
//! (for example `databricks-sql`) to sharpen the mapping.
//!
//! The table is handed to the alias deriver as a value, so a caller may
//! substitute its own override set.

use vstd::prelude::*;

use crate::aliases::pair_views;

verus! {

/// The override pairs, install name first, in lexicographic order of the
/// install name.
pub open spec fn known_names_spec() -> Seq<(Seq<char>, Seq<char>)> {
    seq![
        ("Flask"@, "flask"@),
        ("Markdown"@, "markdown"@),
        ("PyYAML"@, "yaml"@),
        ("SQLAlchemy"@, "sqlalchemy"@),
        ("Wand"@, "wand"@),
        ("argon2-cffi"@, "argon2"@),
        ("beautifulsoup4"@, "bs4"@),
        ("boto3-stubs"@, "mypy_boto3_iam"@),
        ("celery-redbeat"@, "redbeat"@),
        ("databricks-sdk"@, "databricks.sdk"@),
        ("databricks-sql-connector"@, "databricks-sql"@),
        ("faiss-cpu"@, "faiss"@),
        ("faiss-gpu"@, "faiss"@),
        ("google-api-python-client"@, "googleapiclient"@),
        ("google-cloud-pubsub"@, "google-cloud-pubsub_v1"@),
        ("grpcio"@, "grpc"@),
        ("hydra-colorlog"@, "colorlog"@),
        ("hydra-core"@, "hydra"@),
        ("json-stream"@, "json_stream"@),
        ("jupyter"@, "IPython"@),
        ("levenshtein"@, "Levenshtein"@),
        ("opensearch-py"@, "opensearchpy"@),
        ("pdfminer.six"@, "pdfminer"@),
        ("protobuf"@, "google.protobuf"@),
        ("pyautogen"@, "autogen"@),
        ("pybars3"@, "pybars"@),
        ("python-jose"@, "jose"@),
        ("python-multipart"@, "multipart"@),
        ("python-slugify"@, "slugify"@),
        ("pytorch-nlp"@, "torchnlp"@),
        ("pyvespa"@, "vespa"@),
        ("scikit-learn"@, "sklearn"@),
        ("snowflake-connector-python"@, "snowflake"@),
        ("unicodedata2"@, "unicodedata"@),
        ("vl-convert-python"@, "vl_convert"@),
    ]
}

/// The override table from install name to import name.
pub fn known_names() -> (r: Vec<(String, String)>)
    ensures
        pair_views(r@) == known_names_spec(),
{
    let mut table: Vec<(String, String)> = Vec::new();
    table.push((String::from_str("Flask"), String::from_str("flask")));
    table.push((String::from_str("Markdown"), String::from_str("markdown")));
    table.push((String::from_str("PyYAML"), String::from_str("yaml")));
    table.push((String::from_str("SQLAlchemy"), String::from_str("sqlalchemy")));
    table.push((String::from_str("Wand"), String::from_str("wand")));
    table.push((String::from_str("argon2-cffi"), String::from_str("argon2")));
    table.push((String::from_str("beautifulsoup4"), String::from_str("bs4")));
    table.push((String::from_str("boto3-stubs"), String::from_str("mypy_boto3_iam")));
    table.push((String::from_str("celery-redbeat"), String::from_str("redbeat")));
    table.push((String::from_str("databricks-sdk"), String::from_str("databricks.sdk")));
    table.push((String::from_str("databricks-sql-connector"), String::from_str("databricks-sql")));
    table.push((String::from_str("faiss-cpu"), String::from_str("faiss")));
    table.push((String::from_str("faiss-gpu"), String::from_str("faiss")));
    table.push((String::from_str("google-api-python-client"), String::from_str("googleapiclient")));
    table.push((String::from_str("google-cloud-pubsub"), String::from_str("google-cloud-pubsub_v1")));
    table.push((String::from_str("grpcio"), String::from_str("grpc")));
    table.push((String::from_str("hydra-colorlog"), String::from_str("colorlog")));
    table.push((String::from_str("hydra-core"), String::from_str("hydra")));
    table.push((String::from_str("json-stream"), String::from_str("json_stream")));
    table.push((String::from_str("jupyter"), String::from_str("IPython")));
    table.push((String::from_str("levenshtein"), String::from_str("Levenshtein")));
    table.push((String::from_str("opensearch-py"), String::from_str("opensearchpy")));
    table.push((String::from_str("pdfminer.six"), String::from_str("pdfminer")));
    table.push((String::from_str("protobuf"), String::from_str("google.protobuf")));
    table.push((String::from_str("pyautogen"), String::from_str("autogen")));
    table.push((String::from_str("pybars3"), String::from_str("pybars")));
    table.push((String::from_str("python-jose"), String::from_str("jose")));
    table.push((String::from_str("python-multipart"), String::from_str("multipart")));
    table.push((String::from_str("python-slugify"), String::from_str("slugify")));
    table.push((String::from_str("pytorch-nlp"), String::from_str("torchnlp")));
    table.push((String::from_str("pyvespa"), String::from_str("vespa")));
    table.push((String::from_str("scikit-learn"), String::from_str("sklearn")));
    table.push((String::from_str("snowflake-connector-python"), String::from_str("snowflake")));
    table.push((String::from_str("unicodedata2"), String::from_str("unicodedata")));
    table.push((String::from_str("vl-convert-python"), String::from_str("vl_convert")));
    proof {
        assert(pair_views(table@) =~= known_names_spec());
    }
    table
}

} // verus!
