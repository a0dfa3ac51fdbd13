//! The binding contract each kernel publishes: an ordered list of binding
//! slots with their resource kinds, plus the workgroup thread shape the
//! kernel was compiled for. A kernel factory turns one of these layouts,
//! together with the kernel's compiled bytecode and entry point, into a
//! ready-to-use pipeline; the layouts here are plain declarative values, so
//! no compile-time code synthesis is involved.

use vstd::prelude::*;

verus! {

/// Resource kind of one binding slot.
#[derive(Clone, Copy, Debug, PartialEq, Eq, Structural)]
pub enum BindingKind {
    /// A read-write storage buffer.
    StorageBuffer,
    /// A small read-only parameter buffer.
    UniformBuffer,
}

/// One binding declaration: which slot of descriptor set 0, and what kind
/// of resource is bound there.
#[derive(Clone, Copy, Debug, PartialEq, Eq, Structural)]
pub struct BindingDecl {
    /// Binding index inside the set.
    pub index: u32,
    /// Resource kind at that index.
    pub kind: BindingKind,
}

/// Everything a kernel factory needs about one kernel: its bindings, in
/// slot order, and its workgroup thread shape.
pub struct KernelLayout {
    /// The declared binding slots.
    pub bindings: Vec<BindingDecl>,
    /// Threads per workgroup along x.
    pub threads_x: u32,
    /// Threads per workgroup along y.
    pub threads_y: u32,
    /// Threads per workgroup along z.
    pub threads_z: u32,
}

impl KernelLayout {
    /// Bindings are declared densely, in slot order: entry `i` binds slot
    /// `i`.
    pub open spec fn wf(self) -> bool {
        forall|i: int| 0 <= i < self.bindings@.len() ==> #[trigger] self.bindings@[i].index == i
    }

    /// Threads per workgroup in all.
    pub open spec fn workgroup_threads(self) -> int {
        self.threads_x as int * self.threads_y as int * self.threads_z as int
    }
}

/// The counting kernel's declared bindings: the chunk's bytes, the
/// per-thread span, the chunk length, the delimiter, and the per-thread
/// counts it writes.
pub fn countchar_layout() -> (l: KernelLayout)
    ensures
        l.wf(),
        l.bindings@.len() == 5,
        l.bindings@[0].kind == BindingKind::StorageBuffer,
        l.bindings@[1].kind == BindingKind::UniformBuffer,
        l.bindings@[2].kind == BindingKind::UniformBuffer,
        l.bindings@[3].kind == BindingKind::UniformBuffer,
        l.bindings@[4].kind == BindingKind::StorageBuffer,
        l.threads_x == 256 && l.threads_y == 1 && l.threads_z == 1,
{
    let mut bindings: Vec<BindingDecl> = Vec::new();
    bindings.push(BindingDecl { index: 0, kind: BindingKind::StorageBuffer });
    bindings.push(BindingDecl { index: 1, kind: BindingKind::UniformBuffer });
    bindings.push(BindingDecl { index: 2, kind: BindingKind::UniformBuffer });
    bindings.push(BindingDecl { index: 3, kind: BindingKind::UniformBuffer });
    bindings.push(BindingDecl { index: 4, kind: BindingKind::StorageBuffer });
    KernelLayout { bindings, threads_x: 256, threads_y: 1, threads_z: 1 }
}

/// The compaction kernel's declared bindings: the chunk's bytes, the
/// per-thread span, the chunk length, the delimiter, the per-thread counts
/// read back from the counting stage, and the compacted positions it
/// writes.
pub fn getcharpos_layout() -> (l: KernelLayout)
    ensures
        l.wf(),
        l.bindings@.len() == 6,
        l.bindings@[0].kind == BindingKind::StorageBuffer,
        l.bindings@[1].kind == BindingKind::UniformBuffer,
        l.bindings@[2].kind == BindingKind::UniformBuffer,
        l.bindings@[3].kind == BindingKind::UniformBuffer,
        l.bindings@[4].kind == BindingKind::StorageBuffer,
        l.bindings@[5].kind == BindingKind::StorageBuffer,
        l.threads_x == 256 && l.threads_y == 1 && l.threads_z == 1,
{
    let mut bindings: Vec<BindingDecl> = Vec::new();
    bindings.push(BindingDecl { index: 0, kind: BindingKind::StorageBuffer });
    bindings.push(BindingDecl { index: 1, kind: BindingKind::UniformBuffer });
    bindings.push(BindingDecl { index: 2, kind: BindingKind::UniformBuffer });
    bindings.push(BindingDecl { index: 3, kind: BindingKind::UniformBuffer });
    bindings.push(BindingDecl { index: 4, kind: BindingKind::StorageBuffer });
    bindings.push(BindingDecl { index: 5, kind: BindingKind::StorageBuffer });
    KernelLayout { bindings, threads_x: 256, threads_y: 1, threads_z: 1 }
}

/// The parsing kernel's declared bindings: the residual bytes and their
/// length, the chunk's bytes and their length, the field delimiter, the
/// number of record starts per thread, the record start offsets read back
/// from the compaction stage, and the parsed values it writes.
pub fn parsecsv_layout() -> (l: KernelLayout)
    ensures
        l.wf(),
        l.bindings@.len() == 8,
        l.bindings@[0].kind == BindingKind::StorageBuffer,
        l.bindings@[1].kind == BindingKind::UniformBuffer,
        l.bindings@[2].kind == BindingKind::StorageBuffer,
        l.bindings@[3].kind == BindingKind::UniformBuffer,
        l.bindings@[4].kind == BindingKind::UniformBuffer,
        l.bindings@[5].kind == BindingKind::UniformBuffer,
        l.bindings@[6].kind == BindingKind::StorageBuffer,
        l.bindings@[7].kind == BindingKind::StorageBuffer,
        l.threads_x == 256 && l.threads_y == 1 && l.threads_z == 1,
{
    let mut bindings: Vec<BindingDecl> = Vec::new();
    bindings.push(BindingDecl { index: 0, kind: BindingKind::StorageBuffer });
    bindings.push(BindingDecl { index: 1, kind: BindingKind::UniformBuffer });
    bindings.push(BindingDecl { index: 2, kind: BindingKind::StorageBuffer });
    bindings.push(BindingDecl { index: 3, kind: BindingKind::UniformBuffer });
    bindings.push(BindingDecl { index: 4, kind: BindingKind::UniformBuffer });
    bindings.push(BindingDecl { index: 5, kind: BindingKind::UniformBuffer });
    bindings.push(BindingDecl { index: 6, kind: BindingKind::StorageBuffer });
    bindings.push(BindingDecl { index: 7, kind: BindingKind::StorageBuffer });
    KernelLayout { bindings, threads_x: 256, threads_y: 1, threads_z: 1 }
}

} // verus!
