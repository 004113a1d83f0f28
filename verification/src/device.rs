//! The programs that a device has compiled so far.

use std::sync::Arc;

use vstd::prelude::*;

use crate::operation::Operation;
use crate::operation::ReduceOp;
use crate::shader::Templates;
use crate::shared::share;
use crate::workgroups::WorkgroupSize;

verus! {

/// A compiled program and what it was compiled for.
struct Entry<P> {
    operation: Operation,
    workgroup_size: WorkgroupSize,
    pipeline: Arc<P>,
}

/// The compute pipelines of a device, kept to avoid compiling a program twice. `P` is the
/// device's own type of a compiled program.
pub struct WgpuDevice<P> {
    templates: Templates,
    pipelines: Vec<Entry<P>>,
}

/// What the first of `entries` for the given operation and workgroup size holds.
spec fn lookup<P>(entries: Seq<Entry<P>>, operation: Operation, size: WorkgroupSize) -> Option<
    Arc<P>,
>
    decreases entries.len(),
{
    if entries.len() == 0 {
        None
    } else if entries[0].operation == operation && entries[0].workgroup_size == size {
        Some(entries[0].pipeline)
    } else {
        lookup(entries.skip(1), operation, size)
    }
}

/// Whether `member` is compiled along with `operation`: the reductions are compiled together,
/// every other operation by itself.
pub open spec fn compiled_with(member: Operation, operation: Operation) -> bool {
    member == operation || (member is Reduce && operation is Reduce)
}

/// Whether `pipeline` is what `build` made of the program for the given operation.
pub open spec fn built_by<P, F: Fn(&str, &str) -> P>(
    build: F,
    templates: Templates,
    operation: Operation,
    size: WorkgroupSize,
    pipeline: Arc<P>,
) -> bool {
    exists|label: &str, source: &str|
        label@ == operation.spec_name() && source@ == templates.spec_source(operation, size)
            && #[trigger] call_ensures(build, (label, source), *pipeline)
}

impl<P> WgpuDevice<P> {
    /// The templates of the device's programs.
    pub closed spec fn templates(self) -> Templates {
        self.templates
    }

    /// The pipeline kept for an operation in workgroups of the given size.
    pub closed spec fn kept(self, operation: Operation, size: WorkgroupSize) -> Option<Arc<P>> {
        lookup(self.pipelines@, operation, size)
    }

    /// Of the reductions, either all or none are there.
    pub open spec fn reductions_together(self) -> bool {
        forall|size: WorkgroupSize|
            #[trigger] self.kept(Operation::Reduce(ReduceOp::Sum), size) is Some
                <==> self.kept(Operation::Reduce(ReduceOp::Max), size) is Some
    }

    /// A device with the given templates that has not compiled anything.
    pub fn new(templates: Templates) -> (device: Self)
        ensures
            device.templates() == templates,
            forall|operation: Operation, size: WorkgroupSize|
                #[trigger] device.kept(operation, size) is None,
            device.reductions_together(),
    {
        WgpuDevice { templates, pipelines: Vec::new() }
    }

    /// The pipeline kept for an operation in workgroups of the given size.
    pub fn kept_pipeline(&self, operation: Operation, size: WorkgroupSize) -> (pipeline: Option<
        Arc<P>,
    >)
        ensures
            pipeline == self.kept(operation, size),
    {
        match self.position(operation, size) {
            Some(i) => Some(share(&self.pipelines[i].pipeline)),
            None => None,
        }
    }

    /// Where the entry for an operation and workgroup size stands.
    fn position(&self, operation: Operation, size: WorkgroupSize) -> (position: Option<usize>)
        ensures
            match position {
                Some(i) => {
                    &&& i < self.pipelines@.len()
                    &&& self.pipelines@[i as int].operation == operation
                    &&& self.pipelines@[i as int].workgroup_size == size
                    &&& forall|j: int|
                        0 <= j < i ==> (#[trigger] self.pipelines@[j]).operation != operation
                            || self.pipelines@[j].workgroup_size != size
                    &&& self.kept(operation, size) == Some(self.pipelines@[i as int].pipeline)
                },
                None => {
                    &&& self.kept(operation, size) is None
                },
            },
    {
        let len: usize = self.pipelines.len();
        let mut i: usize = 0;
        proof {
            assert(self.pipelines@.skip(0) =~= self.pipelines@);
        }
        while i < len
            invariant
                i <= len == self.pipelines@.len(),
                lookup(self.pipelines@, operation, size) == lookup(
                    self.pipelines@.skip(i as int),
                    operation,
                    size,
                ),
                forall|j: int|
                    0 <= j < i ==> (#[trigger] self.pipelines@[j]).operation != operation
                        || self.pipelines@[j].workgroup_size != size,
            decreases len - i,
        {
            let entry: &Entry<P> = &self.pipelines[i];
            if entry.operation == operation && entry.workgroup_size.0 == size.0
                && entry.workgroup_size.1 == size.1 {
                return Some(i);
            }
            proof {
                assert(self.pipelines@.skip(i as int).skip(1) =~= self.pipelines@.skip(i + 1));
            }
            i += 1;
        }
        None
    }

    /// Keeps a pipeline for an operation in workgroups of the given size, in the place of one
    /// that was kept for them before.
    pub fn memo_compute_pipeline(
        &mut self,
        operation: Operation,
        pipeline: Arc<P>,
        size: WorkgroupSize,
    )
        ensures
            final(self).templates() == old(self).templates(),
            final(self).kept(operation, size) == Some(pipeline),
            forall|other: Operation, other_size: WorkgroupSize|
                other != operation || other_size != size ==> #[trigger] final(self).kept(
                    other,
                    other_size,
                ) == old(self).kept(other, other_size),
    {
        let ghost before = self.pipelines@;
        let entry: Entry<P> = Entry { operation, workgroup_size: size, pipeline };
        match self.position(operation, size) {
            Some(i) => {
                self.pipelines.set(i, entry);
                proof {
                    assert forall|other: Operation, other_size: WorkgroupSize| #[trigger]
                        lookup(self.pipelines@, other, other_size) == if other == operation
                        && other_size == size {
                        Some(pipeline)
                    } else {
                        lookup(before, other, other_size)
                    } by {
                        lemma_lookup_update(before, i as int, entry, other, other_size);
                    }
                }
            },
            None => {
                self.pipelines.push(entry);
                proof {
                    assert forall|other: Operation, other_size: WorkgroupSize| #[trigger]
                        lookup(self.pipelines@, other, other_size) == if other == operation
                        && other_size == size {
                        Some(pipeline)
                    } else {
                        lookup(before, other, other_size)
                    } by {
                        lemma_lookup_push(before, entry, other, other_size);
                    }
                }
            },
        }
        proof {
            assert(lookup(self.pipelines@, operation, size) == Some(pipeline));
        }
    }

    /// The pipeline for an operation in workgroups of the given size. Where none is kept, `build`
    /// makes one from the operation's name and its program. Where one is kept, nothing is compiled:
    /// `build` need not even be callable.
    pub fn pipeline_for<F: Fn(&str, &str) -> P>(
        &mut self,
        operation: Operation,
        size: WorkgroupSize,
        build: F,
    ) -> (pipeline: Arc<P>)
        requires
            old(self).kept(operation, size) is None ==> forall|
                member: Operation,
                label: &str,
                source: &str,
            |
                compiled_with(member, operation) && label@ == member.spec_name() && source@
                    == #[trigger] old(self).templates().spec_source(member, size)
                    ==> #[trigger] call_requires(build, (label, source)),
            old(self).kept(operation, size) is None && operation is Reduce ==> size.0 * size.1
                <= usize::MAX,
        ensures
            final(self).templates() == old(self).templates(),
            final(self).kept(operation, size) == Some(pipeline),
            old(self).kept(operation, size) is Some ==> *final(self) == *old(self),
            old(self).kept(operation, size) is None ==> {
                &&& forall|member: Operation|
                    compiled_with(member, operation) ==> match #[trigger] final(self).kept(
                        member,
                        size,
                    ) {
                        Some(made) => built_by(
                            build,
                            old(self).templates(),
                            member,
                            size,
                            made,
                        ),
                        None => false,
                    }
                &&& forall|other: Operation, other_size: WorkgroupSize|
                    !compiled_with(other, operation) || other_size != size
                        ==> #[trigger] final(self).kept(other, other_size) == old(self).kept(
                        other,
                        other_size,
                    )
            },
            old(self).reductions_together() ==> final(self).reductions_together(),
    {
        match self.kept_pipeline(operation, size) {
            Some(pipeline) => {
                return pipeline;
            },
            None => {},
        }
        match operation {
            Operation::Reduce(reduce) => {
                let sum: Operation = Operation::Reduce(ReduceOp::Sum);
                let max: Operation = Operation::Reduce(ReduceOp::Max);
                let sum_pipeline: Arc<P> = self.compile(sum, size, &build);
                let max_pipeline: Arc<P> = self.compile(max, size, &build);
                self.memo_compute_pipeline(sum, share(&sum_pipeline), size);
                self.memo_compute_pipeline(max, share(&max_pipeline), size);
                match reduce {
                    ReduceOp::Sum => sum_pipeline,
                    ReduceOp::Max => max_pipeline,
                }
            },
            _ => {
                let pipeline: Arc<P> = self.compile(operation, size, &build);
                self.memo_compute_pipeline(operation, share(&pipeline), size);
                pipeline
            },
        }
    }

    /// What `build` makes of the program for an operation.
    fn compile<F: Fn(&str, &str) -> P>(
        &self,
        operation: Operation,
        size: WorkgroupSize,
        build: &F,
    ) -> (pipeline: Arc<P>)
        requires
            forall|label: &str, source: &str|
                label@ == operation.spec_name() && source@ == self.templates().spec_source(
                    operation,
                    size,
                ) ==> #[trigger] call_requires(*build, (label, source)),
            operation is Reduce ==> size.0 * size.1 <= usize::MAX,
        ensures
            built_by(*build, self.templates(), operation, size, pipeline),
    {
        let label: &'static str = operation.name();
        let source: String = self.templates.source(operation, size);
        let pipeline: P = build(label, source.as_str());
        Arc::new(pipeline)
    }
}

proof fn lemma_lookup_push<P>(
    entries: Seq<Entry<P>>,
    entry: Entry<P>,
    operation: Operation,
    size: WorkgroupSize,
)
    ensures
        lookup(entries.push(entry), operation, size) == match lookup(entries, operation, size) {
            Some(pipeline) => Some(pipeline),
            None => if entry.operation == operation && entry.workgroup_size == size {
                Some(entry.pipeline)
            } else {
                None
            },
        },
    decreases entries.len(),
{
    if entries.len() > 0 {
        lemma_lookup_push(entries.skip(1), entry, operation, size);
        assert(entries.push(entry).skip(1) =~= entries.skip(1).push(entry));
    } else {
        assert(entries.push(entry).skip(1) =~= Seq::empty());
        assert(lookup(Seq::<Entry<P>>::empty(), operation, size) is None);
    }
}

proof fn lemma_lookup_update<P>(
    entries: Seq<Entry<P>>,
    i: int,
    entry: Entry<P>,
    operation: Operation,
    size: WorkgroupSize,
)
    requires
        0 <= i < entries.len(),
        entries[i].operation == entry.operation,
        entries[i].workgroup_size == entry.workgroup_size,
        forall|j: int|
            0 <= j < i ==> (#[trigger] entries[j]).operation != entry.operation
                || entries[j].workgroup_size != entry.workgroup_size,
    ensures
        lookup(entries.update(i, entry), operation, size) == if operation == entry.operation
            && size == entry.workgroup_size {
            Some(entry.pipeline)
        } else {
            lookup(entries, operation, size)
        },
    decreases entries.len(),
{
    if i == 0 {
        assert(entries.update(i, entry).skip(1) =~= entries.skip(1));
    } else {
        assert(entries.update(i, entry).skip(1) =~= entries.skip(1).update(i - 1, entry));
        assert forall|j: int| 0 <= j < i - 1 implies (#[trigger] entries.skip(1)[j]).operation
            != entry.operation || entries.skip(1)[j].workgroup_size != entry.workgroup_size by {
            assert(entries[j + 1].operation != entry.operation || entries[j + 1].workgroup_size
                != entry.workgroup_size);
        }
        lemma_lookup_update(entries.skip(1), i - 1, entry, operation, size);
        assert(entries[0].operation != entry.operation || entries[0].workgroup_size
            != entry.workgroup_size);
    }
}

} // verus!
