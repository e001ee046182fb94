//! Parsing for single-file SQL migrations that carry both an "up" and a
//! "down" section, split on a marker line, together with statement
//! splitting, migration filename parsing, ordering of migration files and
//! content checksums.
pub mod checksum;
pub mod filename;
pub mod migration;
pub mod order;
pub mod scan;
pub mod statement;
pub mod text;

pub use checksum::checksum;
pub use filename::Filename;
pub use migration::{Migration, DOWN_MARKER};
pub use scan::{collect_migration_files, MigrationFile};
pub use statement::split_statements;
