//! FM-index engine: suffix-array construction, C- and O-tables, exact
//! backward search and bounded-edit approximate search over a small
//! DNA alphabet.

pub mod approx_search;
pub mod codec;
pub mod exact_search;
pub mod o_table;
pub mod sais;
pub mod skew;
pub mod suffix_array_construction;
pub mod table_gen;
pub mod types;
pub mod util;
pub mod wide;

pub use approx_search::{approx_search, calculate_d_table, ApproxSearchParams, DTable, Hit};
pub use exact_search::{bwt_search, naive_exact_search};
pub use o_table::OTable;
pub use sais::suffix_array_induced_sort;
pub use skew::skew;
pub use suffix_array_construction::{
    construct_suffix_array_naive, is_valid_suffix_array, SuffixArray,
};
pub use table_gen::{generate_c_table, generate_o_table_naive, CTable};
pub use util::{bwm, bwt, remap_query, remap_reference, FmError, ALPHABET};
