//! The decisions a build script runner makes: reading its arguments, planning
//! the environment and working directory of the script, turning the
//! compiler's configuration into variables, and cleaning up the output
//! directory afterwards.
//!
//! Every function here is a function from plain values to plain values. Text
//! is modelled as `Seq<char>`, a path as its text.

pub mod arg_laws;
pub mod args;
pub mod cfg_laws;
pub mod dep_env_laws;
pub mod env_vars;
pub mod host;
pub mod out_dir;
pub mod out_dir_laws;
pub mod outcome;
pub mod outcome_laws;
pub mod path_laws;
pub mod paths;
pub mod rustc_cfg;
pub mod script;
pub mod script_laws;
pub mod text;
pub mod text_laws;
