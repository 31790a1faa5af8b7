//! Host-side logic of an embedded Lua runtime: the closed-set `enum`
//! capability handed to scripts, the message built by the `print` bridge,
//! and the order in which prelude fragments are loaded at bootstrap.

pub mod enumeration;
pub mod loader;
pub mod print;
pub mod value;

pub use loader::{
    classify_entry, fragment_names, is_script_name, name_le, plan_prelude, EntryKind, PreludeStep,
};
pub use enumeration::{lua_enum, EnumError, LuaEnum};
pub use print::{log_line, print_message};
pub use value::GuestValue;
