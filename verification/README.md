# kernel_rs

The verified core of the Rugo x86-64 kernel: the logic behind its memory
management, loaders, file systems, device drivers and kernel tables, written
in Verus with each public function's behaviour stated over a mathematical
model and proved.

Hardware access (port I/O, MMIO, control registers, DMA) is not part of the
library. Where a kernel routine talks to a device, the library holds what it
decides: what it computes from the values read and what it writes next.
Physical memory, disks and the serial console are modelled as sequences of
words or bytes.

## Layout

- `src/pmm.rs`: physical frame allocator (bitmap over the first 4 GiB).
- `src/heap.rs`: first-fit kernel heap with coalescing, carved from the frame
  allocator.
- `src/vm.rs`: four-level page tables over a model of physical memory:
  demand paging, per-process address spaces, fork with copy-on-write,
  mmap/munmap/mprotect, user loading, device MMIO windows; with the laws
  relating these operations.
- `src/elf.rs`: ELF64 image validation and the auxiliary vector.
- `src/fat16.rs`, `src/gpt.rs`, `src/install.rs`, `src/block.rs`: on-disk
  formats and block-level procedures over a disk image.
- `src/mount.rs`, `src/klog.rs`: the mount table and the kernel log ring.
- `src/pci.rs`, `src/pci_scan.rs`, `src/virtio.rs`, `src/xhci.rs`, `src/e1000.rs`, `src/hda.rs`,
  `src/clock.rs`: device-facing decisions of the PCI, virtio-blk, xHCI, e1000,
  HD Audio and TSC-calibration code.
- `src/crc32.rs`, `src/sha256.rs`, `src/serial.rs`, `src/bytes.rs`,
  `src/seqsum.rs`: checksums, digests, console formatting and shared lemmas.
- `tests/`: executable tests of the library.
