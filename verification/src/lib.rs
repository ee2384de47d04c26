//! Labeled private set intersection: the data plane of the server and of the
//! client, over the plaintext space of a BFV scheme.

pub mod big_box;
pub mod client;
pub mod dag;
pub mod db;
pub mod field;
pub mod hash;
pub mod inner_box;
pub mod item_set;
pub mod matrix;
pub mod params;
pub mod paterson_stockmeyer;
pub mod poly_interpolate;
pub mod powers;
pub mod protocol;
pub mod serialize;
pub mod server;
pub mod utils;

pub use big_box::BigBox;
pub use client::{
    calculate_source_powers, construct_query, process_query_response, response_confirms,
    HashTableQuery, InnerBoxQuery, PotentialResponseLabels, QueryState,
};
pub use dag::{construct_dag, ConfigError, Node};
pub use db::Db;
pub use field::{add_mod, inv_mod, is_prime_u32, mul_mod, neg_mod, sub_mod};
pub use hash::{construct_hash_tables, indices_from_digest, Cuckoo, HashTableEntry};
pub use inner_box::{InnerBox, InnerBoxRow};
pub use item_set::ItemSet;
pub use matrix::Matrix;
pub use params::{Layout, PsiParams};
pub use paterson_stockmeyer::{ps_evaluate_poly, ps_schedule, PSParams, PsBlock, PsTerm};
pub use poly_interpolate::{
    divided_matrix, evaluate_poly, newton_interpolate, poly_mul_monomial, InterpError,
};
pub use powers::{calculate_ps_powers_with_dag, materialize_plan, PowerStep};
pub use serialize::{
    deserialize_query, deserialize_query_response, expected_query_bytes, serialize_query,
    serialize_query_response, HashTableQueryCts, HashTableQueryResponse, Query, QueryResponse,
    SerializedQueryResponse, WireError,
};
pub use server::{
    CiphertextSlots, EvalPolyDegree, HashTableSize, ItemLabel, PsiPlaintext, Server,
};
pub use utils::{bytes_to_u32, chunk_at, chunks_to_value, value_to_chunks, U256};
