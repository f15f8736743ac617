//! A runtime core that loads class files into an in-memory object model.
//!
//! - `reader`: a forward-only cursor over the bytes of a file.
//! - `mem`: arenas that hand out addresses by bumping a cursor and commit
//!   pages as they go.
//! - `mapping`: the open-addressing symbol table with Robin-Hood displacement.
//! - `format`: the class-file format as a parser in spec functions;
//!   `round_trip` writes files in that format and proves they decode back.
//! - `loader`: decoding of constants, fields, methods and whole classes.
//! - `class_load`: the loader that owns the arenas and the class-name table.
pub mod class_error;
pub mod class_file;
pub mod class_load;
pub mod const_pool;
pub mod format;
pub mod loader;
pub mod mapping;
pub mod mem;
pub mod opcodes;
pub mod reader;
pub mod round_trip;
