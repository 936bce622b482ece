pub mod adb;
pub mod diff;
pub mod replay;
pub mod seqs;
pub mod types;

pub use adb::{AColumn, ATable, DeferredSqlType, TypeKey, TypeResolver, ADB};
pub use diff::{diff, diff_table, Operation};
pub use types::{Error, SqlType, SqlVal};
