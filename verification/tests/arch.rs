use kernel::arch::x86_64::gdt::{
    descriptor_table, descriptor_table_limit, tss_descriptor, TssEntry, BEFORE_USER_DESCRIPTOR,
    KERNEL_CODE_DESCRIPTOR, KERNEL_DATA_DESCRIPTOR, TSS_DESCRIPTOR, USER_CODE_DESCRIPTOR,
    USER_DATA_DESCRIPTOR,
};
use kernel::arch::x86_64::idt::{
    fault_report, GateType, Handlers, Idt, IdtEntry, PrivilegeLevel, GENERAL_PROTECTION_VECTOR,
};
use kernel::arch::x86_64::interrupts::{
    enable_external_irq_sequence, init_8259a_sequence, irq_enabled, send_eoi_sequence,
};
use kernel::arch::x86_64::io::PortWrite;
use kernel::arch::x86_64::serial::Serial;
use kernel::arch::x86_64::syscall::{efer_with_no_execute, init_syscall_sequence, MsrWrite};
use kernel::arch::x86_64::task::{
    InterruptionStackFrame, InterruptionStackFrameWithErrorCode, RegisterStore,
};
use kernel::arch::x86_64::timer::{init_timer_sequence, pit_divisor};
use kernel::arch::x86_64::utils::{cr3_of_frame, frame_of_cr3, rdmsr_value, wrmsr_halves};
use kernel::mm::definitions::Frame;
use kernel::sync::mutex::{
    hold_nested, release_exclusive, release_shared, try_exclusive_access, try_lock,
    try_shared_access, Listener, Spin, SpinNoIrq,
};

fn port(port: u16, value: u8) -> PortWrite {
    PortWrite::new(port, value)
}

#[test]
fn selectors_name_the_entries_of_the_descriptor_table() {
    assert_eq!(KERNEL_CODE_DESCRIPTOR, 1 * 8);
    assert_eq!(KERNEL_DATA_DESCRIPTOR, 2 * 8);
    assert_eq!(BEFORE_USER_DESCRIPTOR, 3 * 8);
    assert_eq!(USER_DATA_DESCRIPTOR, 4 * 8);
    assert_eq!(USER_CODE_DESCRIPTOR, 5 * 8);
    assert_eq!(TSS_DESCRIPTOR, 6 * 8);
}

#[test]
fn descriptor_table_holds_the_fixed_entries() {
    let t = descriptor_table(0xffff_8000_0012_3456);
    assert_eq!(t[0].0, 0);
    assert_eq!(t[1].0, 0x00AF_9A00_0000_FFFF);
    assert_eq!(t[2].0, 0x00CF_9200_0000_FFFF);
    assert_eq!(t[3].0, 0);
    assert_eq!(t[4].0, 0x00CF_F200_0000_FFFF);
    assert_eq!(t[5].0, 0x00AF_FA00_0000_FFFF);
    // Limit 103, the low 24 bits of the base, the access bits; then the
    // base from bit 32 up.
    assert_eq!(t[6].0, 0x0000_8900_0000_0000 | (0x12_3456 << 16) | 103);
    assert_eq!(t[7].0, 0xffff_8000);
    assert_eq!(descriptor_table_limit(), 63);
}

#[test]
fn tss_descriptor_splits_base_and_limit() {
    let (low, high) = tss_descriptor(0x1234_5678_9abc_def0, 0x1_0067);
    assert_eq!(low.0, 0x0000_89bc_def0_0067);
    assert_eq!(high.0, 0x1234_5678);
}

#[test]
fn tss_has_one_stack_and_no_io_ports() {
    let tss = TssEntry::new(0xffff_8900_0000_0000);
    assert_eq!(tss.rsp0, 0xffff_8900_0000_0000);
    assert_eq!((tss.rsp1, tss.rsp2), (0, 0));
    assert_eq!(tss.ists, [0; 7]);
    assert_eq!(tss.io_map_base, 0xffff);
}

#[test]
fn idt_entry_splits_the_handler_address() {
    let e = IdtEntry::new(
        0x1122_3344_5566_7788,
        KERNEL_CODE_DESCRIPTOR,
        GateType::TrapGate,
        PrivilegeLevel::Ring0,
        true,
    );
    assert_eq!(e.offset_low, 0x7788);
    assert_eq!(e.offset_middle, 0x5566);
    assert_eq!(e.offset_high, 0x1122_3344);
    assert_eq!(e.segment_selector, 8);
    assert_eq!(e.options_0, 0);
    assert_eq!(e.options_1, 0b1000_1111);
    assert_eq!(e.reserved, 0);
}

#[test]
fn idt_entry_options_hold_type_ring_and_presence() {
    let e = IdtEntry::new(0, 0, GateType::InterruptGate, PrivilegeLevel::Ring3, true);
    assert_eq!(e.options_1, 0b1110_1110);
    let e = IdtEntry::new(0, 0, GateType::InterruptGate, PrivilegeLevel::Ring1, false);
    assert_eq!(e.options_1, 0b0010_1110);
    let e = IdtEntry::new(0, 0, GateType::TrapGate, PrivilegeLevel::Ring2, false);
    assert_eq!(e.options_1, 0b0100_1111);
    assert_eq!(GateType::InterruptGate.code(), 0b1110);
    assert_eq!(GateType::TrapGate.code(), 0b1111);
    assert_eq!(PrivilegeLevel::Ring3.level(), 3);
    assert_eq!(PrivilegeLevel::Ring0.level(), 0);
}

#[test]
fn default_idt_entry_is_all_zero() {
    let e = IdtEntry::default();
    assert_eq!(
        (e.offset_low, e.segment_selector, e.options_0, e.options_1),
        (0, 0, 0, 0)
    );
    assert_eq!((e.offset_middle, e.offset_high, e.reserved), (0, 0, 0));
    assert!(Idt::default().entries.iter().all(|x| *x == e));
}

#[test]
fn idt_serves_the_five_vectors_of_the_kernel() {
    let handlers = Handlers {
        breakpoint: 0xffff_8000_0000_1000,
        double_fault: 0xffff_8000_0000_2000,
        general_protection: 0xffff_8000_0000_3000,
        page_fault: 0xffff_8000_0000_4000,
        timer: 0xffff_8000_0000_5000,
    };
    let idt = Idt::with_handlers(&handlers);
    let gate = |h| {
        IdtEntry::new(h, KERNEL_CODE_DESCRIPTOR, GateType::TrapGate, PrivilegeLevel::Ring0, true)
    };
    for (i, e) in idt.entries.iter().enumerate() {
        let want = match i {
            3 => gate(handlers.breakpoint),
            8 => gate(handlers.double_fault),
            13 => gate(handlers.general_protection),
            14 => gate(handlers.page_fault),
            32 => gate(handlers.timer),
            _ => IdtEntry::default(),
        };
        assert_eq!(*e, want);
    }
    assert_eq!(idt.entries.len(), 48);
    assert_eq!(Idt::limit(), 767);
}

#[test]
fn fault_report_holds_what_the_frame_holds() {
    let frame = InterruptionStackFrameWithErrorCode {
        error_code: 0x18,
        rip: 0xffff_8000_0000_1234,
        cs: 8,
        rflags: 2,
        rsp: 3,
        ss: 16,
    };
    let r = fault_report(GENERAL_PROTECTION_VECTOR, &frame);
    assert_eq!((r.vector, r.rip, r.cs, r.error_code), (13, 0xffff_8000_0000_1234, 8, 0x18));
}

#[test]
fn interrupt_controllers_are_set_up_in_order() {
    assert_eq!(
        init_8259a_sequence(),
        [
            port(0x21, 0xff),
            port(0xA1, 0xff),
            port(0x20, 0x11),
            port(0x21, 0x20),
            port(0x21, 0x04),
            port(0x21, 0x01),
            port(0xA0, 0x11),
            port(0xA1, 0x28),
            port(0xA1, 0x02),
            port(0xA1, 0x01),
            port(0x21, 0xff),
            port(0xA1, 0xff),
        ]
    );
    assert_eq!(enable_external_irq_sequence(), [port(0x21, 0xfa), port(0xA1, 0xff)]);
}

#[test]
fn end_of_interrupt_goes_to_the_controllers_that_raised_it() {
    for idx in 0..8 {
        assert_eq!(send_eoi_sequence(idx), vec![port(0x20, 0x20)]);
    }
    for idx in 8..16 {
        assert_eq!(send_eoi_sequence(idx), vec![port(0xA0, 0x20), port(0x20, 0x20)]);
    }
}

#[test]
fn interrupt_flag_is_bit_nine() {
    assert!(irq_enabled(0x200));
    assert!(irq_enabled(0x246));
    assert!(!irq_enabled(0x046));
    assert!(!irq_enabled(0x400));
}

#[test]
fn timer_divisor_is_the_nearest_to_a_hundred_hertz() {
    assert_eq!(pit_divisor(1193182, 100), Some(11932));
    assert_eq!(pit_divisor(1193182, 1000), Some(1193));
    assert_eq!(pit_divisor(100, 3), Some(33));
    assert_eq!(pit_divisor(101, 3), Some(34));
    assert_eq!(pit_divisor(1193182, 0), None);
    assert_eq!(pit_divisor(1193182, 18), None);
    assert_eq!(pit_divisor(u64::MAX, 2), None);
    assert_eq!(
        init_timer_sequence(),
        [port(0x43, 0x36), port(0x40, 0x9c), port(0x40, 0x2e)]
    );
}

#[test]
fn serial_port_is_set_up_in_order() {
    assert_eq!(
        Serial::init_sequence(0x3F8),
        [
            port(0x3F9, 0x00),
            port(0x3FB, 0x80),
            port(0x3F8, 0x03),
            port(0x3F9, 0x00),
            port(0x3FB, 0x03),
            port(0x3FA, 0xC7),
            port(0x3FC, 0x0B),
        ]
    );
    let s = Serial::new(0x3F8);
    assert_eq!(s.port, 0x3F8);
    assert_eq!(s.line_status_port(), 0x3FD);
    assert!(Serial::can_transmit(0x20));
    assert!(Serial::can_transmit(0x61));
    assert!(!Serial::can_transmit(0x41));
}

#[test]
fn fast_syscall_registers_are_written_in_order() {
    let w = init_syscall_sequence(0xffff_8000_0000_abcd, 0x500);
    assert_eq!(w[0], MsrWrite { register: 0xC000_0081, value: (8 << 32) | (0x18 << 48) });
    assert_eq!(w[1], MsrWrite { register: 0xC000_0082, value: 0xffff_8000_0000_abcd });
    assert_eq!(w[2], MsrWrite { register: 0xC000_0084, value: 0x47700 });
    assert_eq!(w[3], MsrWrite { register: 0xC000_0080, value: 0x501 });
    assert_eq!(efer_with_no_execute(0x501), 0xd01);
}

#[test]
fn model_specific_registers_go_in_two_halves() {
    assert_eq!(wrmsr_halves(0x1122_3344_5566_7788), (0x1122_3344, 0x5566_7788));
    assert_eq!(rdmsr_value(0x1122_3344, 0x5566_7788), 0x1122_3344_5566_7788);
    for v in [0, 1, u64::MAX, 0xffff_ffff, 0x1_0000_0000] {
        let (high, low) = wrmsr_halves(v);
        assert_eq!(rdmsr_value(high, low), v);
    }
}

#[test]
fn translation_base_register_names_the_root_frame() {
    assert_eq!(cr3_of_frame(Frame::new(0x1234)), 0x123_4000);
    assert_eq!(frame_of_cr3(0x123_4000), Frame::new(0x1234));
    assert_eq!(frame_of_cr3(0x123_4fff), Frame::new(0x1234));
    assert_eq!(frame_of_cr3(u64::MAX), Frame::new((1 << 40) - 1));
}

#[test]
fn new_registers_are_zero_but_for_the_entry_state() {
    let r = RegisterStore::new(0x1000, 0x2000, 0x3000);
    assert_eq!((r.rip, r.rsp, r.kernel_rsp, r.rflags), (0x1000, 0x2000, 0x3000, 0x200));
    assert_eq!(r.ksp(), 0x3000);
    let gprs = [
        r.rax, r.rbx, r.rcx, r.rdx, r.rsi, r.rdi, r.r8, r.r9, r.r10, r.r11, r.r12, r.r13, r.r14,
        r.r15, r.rbp,
    ];
    assert_eq!(gprs, [0; 15]);
}

#[test]
fn preempted_task_resumes_where_it_was() {
    let mut r = RegisterStore::new(0x20_1000, 0x8000_0000_0000, 0xffff_8800_0000_3000);
    r.rax = 11;
    r.r15 = 22;
    let frame = InterruptionStackFrame {
        rip: 0x20_1abc,
        cs: 0x2b,
        rflags: 0x246,
        rsp: 0x7fff_ffff_fe58,
        ss: 0x23,
    };
    r.preempt(&frame);
    assert_eq!((r.rax, r.r15, r.kernel_rsp), (11, 22, 0xffff_8800_0000_3000));
    // It goes back to user mode with the same instruction pointer, stack
    // pointer and flags.
    assert_eq!(r.return_frame(), frame);
    assert!(!frame.from_kernel());
}

#[test]
fn task_in_the_kernel_resumes_with_the_kernels_selectors() {
    let mut r = RegisterStore::new(0, 0, 0);
    r.update(0xffff_8000_0000_1234, 0xffff_8800_0000_2ff8);
    r.update_rflags(0x002);
    let frame = r.return_frame();
    assert_eq!(
        frame,
        InterruptionStackFrame {
            rip: 0xffff_8000_0000_1234,
            cs: 0x08,
            rflags: 0x002,
            rsp: 0xffff_8800_0000_2ff8,
            ss: 0x10,
        }
    );
    assert!(frame.from_kernel());
    // The last address of user space is the user's.
    r.update(0xffff_7fff_ffff_ffff, 0);
    assert_eq!(r.return_frame().cs, 0x2b);
    assert_eq!(r.return_frame().ss, 0x23);
}

#[test]
fn writer_takes_a_free_lock_only() {
    assert_eq!(try_exclusive_access(0), Some(u64::MAX));
    assert_eq!(try_exclusive_access(1), None);
    assert_eq!(try_exclusive_access(u64::MAX), None);
    assert_eq!(release_exclusive(u64::MAX), 0);
}

#[test]
fn readers_are_counted() {
    assert_eq!(try_shared_access(0), Some(1));
    assert_eq!(try_shared_access(5), Some(6));
    assert_eq!(try_shared_access(u64::MAX), None);
    // One more reader would look like a writer.
    assert_eq!(try_shared_access(u64::MAX - 1), None);
    assert_eq!(try_shared_access(u64::MAX - 2), Some(u64::MAX - 1));
    assert_eq!(release_shared(6), 5);
    assert_eq!(release_shared(1), 0);
}

#[test]
fn mutex_word_is_taken_when_free() {
    assert_eq!(try_lock(false), Some(true));
    assert_eq!(try_lock(true), None);
}

#[test]
fn plain_lock_leaves_interrupts_alone() {
    let mut l = Spin {};
    assert!(l.before_lock(true));
    assert!(l.after_unlock(true));
    assert!(!l.before_lock(false));
    assert!(!l.after_unlock(false));
}

#[test]
fn irq_safe_locks_nest() {
    for before in [false, true] {
        let mut outer = SpinNoIrq::new();
        let mut inner = SpinNoIrq::new();
        let mut irq = outer.before_lock(before);
        assert!(!irq);
        irq = inner.before_lock(irq);
        assert!(!irq);
        irq = inner.after_unlock(irq);
        assert!(!irq);
        irq = outer.after_unlock(irq);
        assert_eq!(irq, before);
    }
}

#[test]
fn nested_locks_leave_the_interrupt_flag_as_it_was() {
    for before in [false, true] {
        assert_eq!(hold_nested(&mut SpinNoIrq::new(), &mut SpinNoIrq::new(), before), (false, before));
        assert_eq!(hold_nested(&mut SpinNoIrq::new(), &mut Spin {}, before), (false, before));
        assert_eq!(hold_nested(&mut Spin {}, &mut SpinNoIrq::new(), before), (false, before));
        assert_eq!(hold_nested(&mut Spin {}, &mut Spin {}, before), (before, before));
    }
}
