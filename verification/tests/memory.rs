//! Executable memory, as far as it can be decided without mapping any.
use forge::memory::{
    cache_lines, dcache_line_size, icache_line_size, round_up_to_page, Acquired, CallError,
    CodeCache, CompiledExpr, Entry, ExecutableBuffer, ProtState,
};

const PAGE: usize = 4096;

#[test]
fn a_zero_size_request_rounds_up_to_one_page() {
    let buf = ExecutableBuffer::new(0, PAGE).expect("should not fail on a 0-byte request");
    assert!(!buf.is_empty());
}

#[test]
fn size_is_rounded_up_to_a_page_multiple() {
    let buf = ExecutableBuffer::new(1, PAGE).expect("allocation should succeed");
    assert_eq!(buf.len() % PAGE, 0);
    assert!(buf.len() >= PAGE);
}

#[test]
fn sizes_beyond_the_address_space_are_refused() {
    assert_eq!(round_up_to_page(PAGE, PAGE), Some(PAGE));
    assert_eq!(round_up_to_page(PAGE + 1, PAGE), Some(2 * PAGE));
    assert_eq!(round_up_to_page(usize::MAX, PAGE), None);
}

#[test]
fn pages_are_never_writable_and_executable() {
    for state in [ProtState::Writable, ProtState::Executable] {
        let pages = state.protection();
        assert!(pages.read);
        assert!(pages.write != pages.execute);
    }
}

#[test]
fn a_buffer_is_written_before_it_is_executable() {
    let mut buf = ExecutableBuffer::new(64, PAGE).unwrap().placed(0x1000);
    assert_eq!(buf.as_ptr(), 0x1000);
    assert_eq!(buf.state(), ProtState::Writable);
    assert!(buf.may_write(64));
    assert!(!buf.may_write(PAGE + 1));
    assert!(!buf.make_executable(false));
    assert_eq!(buf.state(), ProtState::Writable);
    assert!(buf.make_executable(true));
    assert_eq!(buf.state(), ProtState::Executable);
    assert!(!buf.may_write(1));
    assert!(buf.reset_to_writable(true));
    assert!(buf.may_write(1));
}

#[test]
fn calls_check_their_arity() {
    let mut buf = ExecutableBuffer::new(64, PAGE).unwrap().placed(0x2000);
    buf.make_executable(true);
    let compiled = CompiledExpr::from_buffer(buf, 2);
    assert_eq!(compiled.entry(Entry::Scalar, 1), Err(CallError::Arity));
    assert_eq!(compiled.entry(Entry::Scalar, 2), Ok(0x2000));
}

#[test]
fn code_cache_reuses_a_released_buffer() {
    let mut cache = CodeCache::default();
    let Some(Acquired::Fresh(buf1)) = cache.acquire(64, PAGE) else {
        panic!("nothing to reuse yet");
    };
    let buf1 = buf1.placed(0x3000);
    cache.release(buf1);
    match cache.acquire(64, PAGE) {
        Some(Acquired::Reused(buf2)) => assert_eq!(buf2.as_ptr(), 0x3000),
        other => panic!("expected the released buffer, found {other:?}"),
    }
}

#[test]
fn code_cache_allocates_fresh_when_nothing_reusable_is_large_enough() {
    let mut cache = CodeCache::default();
    let Some(Acquired::Fresh(small)) = cache.acquire(64, PAGE) else {
        panic!("nothing to reuse yet");
    };
    cache.release(small.placed(0x3000));
    assert!(matches!(cache.acquire(PAGE * 4, PAGE), Some(Acquired::Fresh(_))));
}

#[test]
fn released_buffer_is_writable_again() {
    let mut cache = CodeCache::default();
    let Some(Acquired::Fresh(buf)) = cache.acquire(64, PAGE) else {
        panic!("nothing to reuse yet");
    };
    let mut buf = buf.placed(0x3000);
    buf.make_executable(true);
    cache.release(buf);
    let Some(Acquired::Reused(reused)) = cache.acquire(64, PAGE) else {
        panic!("the buffer was released");
    };
    assert_eq!(reused.state(), ProtState::Writable);
    assert!(reused.may_write(64));
}

#[test]
fn cache_lines_cover_the_code() {
    assert_eq!(icache_line_size(4), 64);
    assert_eq!(dcache_line_size(0x5_0000), 128);
    let lines = cache_lines(100, 200, 64);
    assert_eq!(lines, vec![64, 128, 192, 256]);
}
