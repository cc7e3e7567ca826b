//! Storage abstraction for bare-metal systems: block devices, a common file
//! index interface, and read-only FAT and ZIP drivers that serve it.

pub mod bytes;
pub mod fat;
pub mod file;
pub mod input;
pub mod names;
pub mod storage;
pub mod zip;

pub use file::{Entry, FileDevice};
pub use input::{Axis, InputDevice, InputEvent, Key, PS2Keyboard, PS2Mouse};
pub use storage::{BlockStorage, DirEntry, Error, File, FileStorage, MemoryStorage};
