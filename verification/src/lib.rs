//! The object layer of a JavaScript runtime: heap objects with shapes, the side
//! tables that speed them up, and what a moving collector asks of both.
//!
//! `heap`, `value`, `keys` and `key_lists` are the ground: cells by address,
//! boxed values, property keys and the arrays that list them. `shapes`,
//! `keys_index`, `shape_cache`, `transition`, `overflow` and `learned_inline`
//! are the side tables. `object_slots`, `object_ops`, `literals` and `enumerate`
//! work on objects; `ic` and `by_name` resolve property reads. `world` states
//! what always holds of heap and tables together.

pub mod addr_class;
pub mod by_name;
pub mod call_depth;
pub mod enumerate;
pub mod gc;
pub mod heap;
pub mod hot_tables;
pub mod ic;
pub mod key_lists;
pub mod keys;
pub mod keys_index;
pub mod learned_inline;
pub mod literals;
pub mod method_names;
pub mod object_cache_roots;
pub mod object_ops;
pub mod object_slots;
pub mod overflow;
pub mod private_brand;
pub mod rekey;
pub mod runtime;
pub mod shape_cache;
pub mod shapes;
pub mod stubs;
pub mod transition;
pub mod value;
pub mod world;
