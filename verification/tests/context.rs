use ipgrep::context::{ContextBuffer, ShowContext};

fn line(n: usize) -> Vec<u8> {
    format!("line{}\n", n).into_bytes()
}

#[test]
fn test_before_buffering() {
    let show = ShowContext { before: 2, after: 0 };
    let mut ctx = ContextBuffer::from_show_context(&show);

    ctx.push_before_line(1, &line(1));
    ctx.push_before_line(2, &line(2));
    ctx.push_before_line(3, &line(3)); // should evict line1

    let collected: Vec<_> = ctx.get_before_lines().iter().map(|(n, _)| *n).collect();
    assert_eq!(collected, vec![2, 3], "queue keeps last N lines");
}

#[test]
fn test_after_countdown() {
    let show = ShowContext { before: 0, after: 2 };
    let mut ctx = ContextBuffer::from_show_context(&show);

    ctx.request_after();
    assert!(ctx.should_print_after_line(), "first after line allowed");
    assert!(ctx.should_print_after_line(), "second after line allowed");
    assert!(!ctx.should_print_after_line(), "then stop after lines");
}

#[test]
fn test_delimiter_needed_between_blocks() {
    let show = ShowContext { before: 2, after: 0 };
    let mut ctx = ContextBuffer::from_show_context(&show);

    // First match: no delimiter.
    ctx.push_before_line(10, &line(10));
    ctx.update_last_printed(0);
    assert!(!ctx.is_new_match_block(10), "first block => no delimiter");

    // Simulate printing the first block and clearing the before-queue.
    ctx.clear_before_lines();
    ctx.update_last_printed(12);

    // Second block, nearby lines: still no delimiter.
    ctx.push_before_line(13, &line(13));
    assert!(!ctx.is_new_match_block(13), "adjacent block => no delimiter");

    // Simulate printing/clearing the second block as well
    ctx.clear_before_lines();
    ctx.update_last_printed(13);

    // Now add a far-away line; should cause delimiter.
    ctx.push_before_line(30, &line(30));
    assert!(ctx.is_new_match_block(30), "non-contiguous block => delimiter needed");
}

#[test]
fn test_clear_before_lines() {
    let show = ShowContext { before: 2, after: 0 };
    let mut ctx = ContextBuffer::from_show_context(&show);
    ctx.push_before_line(1, &line(1));
    ctx.push_before_line(2, &line(2));
    assert_eq!(ctx.get_before_lines().len(), 2);
    ctx.clear_before_lines();
    assert!(ctx.get_before_lines().is_empty(), "queue cleared");
}

#[test]
fn test_update_last_printed_and_used_flag() {
    let show = ShowContext { before: 1, after: 1 };
    let mut ctx = ContextBuffer::from_show_context(&show);
    assert!(ctx.is_used, "context should be marked used");
    ctx.update_last_printed(42);
    assert_eq!(ctx.last_printed_lineno, 42);
}

#[test]
fn test_unused_context_does_nothing() {
    let show = ShowContext::default();
    let mut ctx = ContextBuffer::from_show_context(&show);

    assert!(!ctx.is_used, "unused context");
    ctx.push_before_line(1, &line(1));
    assert!(ctx.get_before_lines().is_empty(), "no lines should be queued");
    ctx.request_after();
    assert!(!ctx.should_print_after_line(), "no after lines tracked");
    assert!(!ctx.is_new_match_block(10), "no delimiter logic active");
}
