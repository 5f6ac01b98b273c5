//! Parsers of the kernel's `/proc` files.
pub mod iomem;

pub use iomem::{detect_iomem_variant, parse_iomem, parse_iomem_line};
pub mod meminfo;

pub use meminfo::MemInfo;
pub mod zoneinfo;

pub use zoneinfo::{detect_zoneinfo_variant, parse_value_after_colon, parse_zoneinfo};
pub mod modules;

pub use modules::KernelModules;
pub mod pid;

pub use pid::{Exe, Lib, Proc, ProcTree};
