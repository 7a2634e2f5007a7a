//! A programmable text editor core built on a rescanning macro interpreter:
//! the integer codec, forms, argument lists, the gap buffer and the editing
//! buffer layered on it, the buffer registry with its search pattern, and the
//! interpreter with its primitive families.

pub mod mint_types;
pub mod bytes;
pub mod mint_string;
pub mod mint_form;
pub mod mint_arg;
pub mod search;
pub mod gap_buffer;
pub mod emacs_buffer;
pub mod emacs_buffers;
pub mod mint;
pub mod frmprim;
pub mod mthprim;
pub mod strprim;
pub mod varprim;
pub mod bufprim;
pub mod libprim;
pub mod sysprim;
pub mod emacs_window;
pub mod winprim;
