//! Global-menu bridge library: menu models read from AT-SPI and dbusmenu, their conversion
//! into one unified menu tree with depth-first ids and child-index paths, path lookup for
//! clicks, AppMenu registrar bookkeeping, niri event decoding and request decisions.
use vstd::prelude::*;

pub mod protocol;
pub mod text;
pub mod dbusmenu;
pub mod atspi;
pub mod proxy;
pub mod registrar;
pub mod niri;
pub mod http;

verus! {

} // verus!
