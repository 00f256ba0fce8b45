//! Verified core of the Rugo kernel: the pure logic behind its loaders,
//! parsers, allocators and tables, each stated over a mathematical model.

pub mod bytes;
pub mod elf;
pub mod serial;
pub mod crc32;
pub mod sha256;
pub mod mount;
pub mod klog;
pub mod pmm;
pub mod seqsum;
pub mod heap;
pub mod fat16;
pub mod pci;
pub mod pci_scan;
pub mod install;
pub mod gpt;
pub mod xhci;
pub mod e1000;
pub mod hda;
pub mod vm;
pub mod virtio;
pub mod clock;
pub mod block;

