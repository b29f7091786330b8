use segment_alloc::{
    cpu_id, is_primary, mm_frame_allocator, mm_region_granularity, process_id, pt_frame_allocator,
    ContextSwitchFrame, EqTask, EqTaskQueue, FrameType, GuestMappingType, InstanceInnerRegion,
    InstancePerCPURegion, InstanceSharedRegion, InstanceType, MMFrameAllocator, PTFrameAllocator,
    PerCPURegion, ProcessInnerRegion, RawEPTPListRegion, TaskContext, FIRST_PROCESS_ID,
    MM_FRAME_ALLOCATOR_SIZE, PT_FRAME_ALLOCATOR_SIZE, RUN_QUEUE_SIZE, SHIM_INSTANCE_ID,
};

fn task(n: usize) -> EqTask {
    EqTask { instance_id: 1, process_id: 2, task_id: n, context: TaskContext::new() }
}

#[test]
fn mapping_types_from_numbers() {
    assert_eq!(GuestMappingType::from(0), GuestMappingType::One2OneMapping);
    assert_eq!(GuestMappingType::from(1), GuestMappingType::CoarseGrainedSegmentation2M);
    assert_eq!(GuestMappingType::from(2), GuestMappingType::CoarseGrainedSegmentation1G);
    assert_eq!(GuestMappingType::from(3), GuestMappingType::One2OneMapping);
    assert_eq!(GuestMappingType::from(u64::MAX), GuestMappingType::One2OneMapping);
    assert_eq!(GuestMappingType::One2OneMapping.granularity(), 0);
    assert_eq!(GuestMappingType::CoarseGrainedSegmentation2M.granularity(), 0x20_0000);
    assert_eq!(GuestMappingType::CoarseGrainedSegmentation1G.granularity(), 0x4000_0000);
    assert!(GuestMappingType::recognised(2));
    assert!(!GuestMappingType::recognised(3));
}

#[test]
fn instance_types_from_numbers() {
    assert_eq!(InstanceType::from(0), InstanceType::LibOS);
    assert_eq!(InstanceType::from(1), InstanceType::Kernel);
    assert_eq!(InstanceType::from(2), InstanceType::LibOS);
    assert_eq!(InstanceType::LibOS.number(), 0);
    assert_eq!(InstanceType::Kernel.number(), 1);
    assert!(InstanceType::recognised(1));
    assert!(!InstanceType::recognised(2));
    assert_ne!(FrameType::Normal, FrameType::PT);
    assert_eq!(SHIM_INSTANCE_ID, 0);
    assert_eq!(FIRST_PROCESS_ID, 1);
    assert_eq!(MM_FRAME_ALLOCATOR_SIZE, 64);
    assert_eq!(PT_FRAME_ALLOCATOR_SIZE, 2);
}

#[test]
fn new_task_context() {
    let mut ctx = TaskContext::new();
    assert_eq!(ctx, TaskContext { kstack_top: 0, rsp: 0, fs_base: 0 });
    let frame = ctx.init(0x1234, 0x9000, 0x7000);
    assert_eq!(ctx.kstack_top, 0x9000);
    assert_eq!(ctx.rsp, 0x9000 - 8 - 56);
    // Once the frame is popped and the task entered, the stack is aligned.
    assert_eq!((ctx.rsp + 56 + 8) % 16, 0);
    assert_eq!(ctx.fs_base, 0x7000);
    assert_eq!(frame, ContextSwitchFrame { rip: 0x1234, ..ContextSwitchFrame::default() });
    assert_eq!(ContextSwitchFrame::default().rip, 0);
}

#[test]
fn queue_is_first_in_first_out() {
    let mut q = EqTaskQueue::new();
    assert_eq!(q.get_task_num(), 0);
    assert_eq!(q.pop(), None);
    for n in 0..RUN_QUEUE_SIZE {
        assert_eq!(q.insert(task(n)), Ok(()));
    }
    assert_eq!(q.get_task_num(), 64);
    assert_eq!(q.insert(task(99)), Err(task(99)));
    assert_eq!(q.get_task_num(), 64);
    assert_eq!(q.pop(), Some(task(0)));
    assert_eq!(q.pop(), Some(task(1)));
    assert_eq!(q.insert(task(64)), Ok(()));
    assert_eq!(q.insert(task(65)), Ok(()));
    assert_eq!(q.insert(task(66)), Err(task(66)));
    let listed: Vec<usize> = q.tasks().iter().map(|t| t.task_id).collect();
    assert_eq!(listed, (2..66).collect::<Vec<usize>>());
    assert_eq!(q.head(), 2);
    assert_eq!(q.tail(), 66);
    for n in 2..66 {
        assert_eq!(q.pop(), Some(task(n)));
    }
    assert_eq!(q.pop(), None);
    assert_eq!(q.get_task_num(), 0);
    assert_eq!(EqTaskQueue::default().get_task_num(), 0);
}

#[test]
fn eptp_entries_in_use() {
    let mut list = [0u64; 512];
    assert_eq!(RawEPTPListRegion::new(list).dump_eptp_list(), vec![]);
    list[0] = 0x1000;
    list[7] = 0x2000;
    list[511] = 0xffff_0000;
    assert_eq!(
        RawEPTPListRegion::new(list).dump_eptp_list(),
        vec![(0, 0x1000), (7, 0x2000), (511, 0xffff_0000)]
    );
}

fn process_region() -> ProcessInnerRegion {
    ProcessInnerRegion {
        process_id: 7,
        is_primary: true,
        mm_region_granularity: 0x20_0000,
        mm_frame_allocator: MMFrameAllocator::new(),
        pt_frame_allocator: PTFrameAllocator::new(),
        kcontext: TaskContext::new(),
        user_entry: 0x40_0000,
        user_stack_top: 0x7fff_0000,
    }
}

#[test]
fn process_region_readers() {
    let mut region = process_region();
    assert_eq!(process_id(&region), 7);
    assert!(is_primary(&region));
    assert_eq!(mm_region_granularity(&region), 0x20_0000);
    mm_frame_allocator(&mut region).init_with_page_size(4096, 0x20_0000, 0, 0x20_0000);
    pt_frame_allocator(&mut region).init_with_page_size(4096, 0x20_0000, 0x20_0000, 0x1000);
    assert_eq!(mm_frame_allocator(&mut region).alloc_pages(1, 4096), Ok(0));
    assert_eq!(pt_frame_allocator(&mut region).alloc_pages(1, 4096), Ok(0x20_0000));
    assert_eq!(region.mm_frame_allocator.used_pages(), 1);
    assert_eq!(region.pt_frame_allocator.total_pages(), 1);

    assert_eq!(ProcessInnerRegion::stack_top(0x10_0000, 0x20_0000), 0x30_0000 - 8);
    let frame = region.init_kernel_stack_frame(0xdead_0000, 0xffff_0000_0000, 0x20_0000);
    assert_eq!(frame.rip, 0xdead_0000);
    assert_eq!(region.kcontext.kstack_top, 0xffff_0000_0000 + 0x20_0000 - 8);
    assert_eq!(region.kcontext.rsp, 0xffff_0000_0000 + 0x20_0000 - 72);
    assert_eq!(region.process_id, 7);
}

#[test]
fn cpu_region_readers() {
    let region = PerCPURegion {
        cpu_id: 3,
        current_task: EqTask {
            instance_id: 4,
            process_id: 5,
            task_id: 6,
            context: TaskContext::new(),
        },
        ready_queue: EqTaskQueue::new(),
        run_queue: EqTaskQueue::new(),
    };
    assert_eq!(cpu_id(&region), 3);
    assert_eq!(region.instance_id(), 4);
    assert_eq!(region.process_id(), 5);
    assert_eq!(region.task_id(), 6);
    let inner = InstanceInnerRegion { instance_id: 9 };
    assert_eq!(inner.instance_id, 9);
    let per_cpu = InstancePerCPURegion { cpu_id: 1, instance_id: 2, process_id: 3 };
    assert_eq!(per_cpu.process_id, 3);
    let shared = InstanceSharedRegion { instance_id: 2, process_id: 3 };
    assert_eq!(shared.instance_id, 2);
}
