//! Schema evolution for table metadata.

pub mod action;
pub mod added_columns;
pub mod apply;
pub mod calendar;
pub mod changes;
pub mod column_properties;
pub mod commit;
pub mod converted_values;
pub mod decimal;
pub mod defaults;
pub mod doubles;
pub mod effects;
pub mod encodings;
pub mod error;
pub mod float_texts;
pub mod floats;
pub mod fresh_ids;
pub mod identifier_names;
pub mod json;
pub mod laws;
pub mod literal;
pub mod mapping_json;
pub mod moves;
pub mod name_mapping;
pub mod names;
pub mod nested_names;
pub mod order;
pub mod pending;
pub mod replay;
pub mod schema;
pub mod shown_changes;
pub mod temporal;
pub mod text;
pub mod tree;
pub mod type_promotion;
pub mod types;
pub mod union;
pub mod unique_ids;
pub mod unique_names;
pub mod united_schemas;
pub mod valid_mappings;
pub mod written_values;
