//! The comparison library: path codec, flattener, value comparator and
//! diff engine.
pub mod diff;
pub mod equal;
pub mod flatten;
pub mod laws;
pub mod lookup;
pub mod number;
pub mod path;
pub mod round_trip;
pub mod text;
pub mod value;

pub use self::diff::{
    compare, is_parent_missing, CompareOptions, ComparisonResult, Statistics, TypeMismatch,
    ValueDifference,
};
pub use self::equal::{deep_equal, values_equal};
pub use self::flatten::get_all_items;
pub use self::lookup::get_value_by_path;
pub use self::number::Number;
pub use self::path::{encode_path, needs_escaping, parse_path, PathPart};
pub use self::value::{get_value_type, is_well_formed, same_type, Value};
