use thread_sentry::tls::{
    clear_current_lock, clear_current_thread_id, get_current_lock, get_current_thread_id, set_current_lock,
    set_current_thread_id,
};
use thread_sentry::ThreadContext;

#[test]
fn slots_start_empty() {
    let context = ThreadContext::new("ThreadId(1)".to_string());
    assert_eq!(get_current_lock(&context), None);
    assert_eq!(get_current_thread_id(&context), None);
    assert_eq!(context.thread_key, "ThreadId(1)");
}

#[test]
fn slots_read_back_what_was_written() {
    let mut context = ThreadContext::new("ThreadId(1)".to_string());
    set_current_lock(&mut context, 3);
    assert_eq!(get_current_lock(&context), Some(3));
    assert_eq!(get_current_thread_id(&context), None);
    set_current_thread_id(&mut context, 8);
    assert_eq!(get_current_thread_id(&context), Some(8));
    assert_eq!(get_current_lock(&context), Some(3));
    set_current_lock(&mut context, 4);
    assert_eq!(get_current_lock(&context), Some(4));
}

#[test]
fn clearing_a_slot_leaves_the_other() {
    let mut context = ThreadContext::new("ThreadId(1)".to_string());
    set_current_lock(&mut context, 1);
    set_current_thread_id(&mut context, 2);
    clear_current_lock(&mut context);
    assert_eq!(get_current_lock(&context), None);
    assert_eq!(get_current_thread_id(&context), Some(2));
    clear_current_thread_id(&mut context);
    assert_eq!(get_current_thread_id(&context), None);
}
