use poll_engine::poll::{Context, Fuse, Poll, Sequence};
use poll_engine::wake::WakeToken;

/// Yields its items one per poll; a poll after the end counts as misuse.
struct Script {
    items: Vec<u32>,
    misused: bool,
    ended: bool,
}

impl Sequence for Script {
    type Item = u32;

    fn poll_next(&mut self, _cx: &mut Context) -> Poll<Option<u32>> {
        if self.ended {
            self.misused = true;
        }
        if self.items.is_empty() {
            self.ended = true;
            Poll::Ready(None)
        } else {
            Poll::Ready(Some(self.items.remove(0)))
        }
    }
}

#[test]
fn context_carries_the_token_and_the_self_wake() {
    let t = WakeToken { index: 3, generation: 9 };
    let mut cx = Context::new(t);
    assert_eq!(cx.token(), t);
    assert!(!cx.was_woken());
    cx.wake();
    assert!(cx.was_woken());
    assert_eq!(cx.token(), t);
    cx.wake();
    assert!(cx.was_woken());
}

#[test]
fn poll_knows_its_variant() {
    assert!(Poll::Ready(1).is_ready());
    assert!(!Poll::Ready(1).is_pending());
    assert!(Poll::<u8>::Pending.is_pending());
    assert!(!Poll::<u8>::Pending.is_ready());
}

#[test]
fn fused_sequence_may_be_polled_after_its_end() {
    let mut f = Fuse::new(Script { items: vec![1, 2], misused: false, ended: false });
    let mut cx = Context::new(WakeToken { index: 0, generation: 0 });
    assert!(!f.done());
    assert!(matches!(f.poll_next(&mut cx), Poll::Ready(Some(1))));
    assert!(matches!(f.poll_next(&mut cx), Poll::Ready(Some(2))));
    assert!(!f.done());
    assert!(matches!(f.poll_next(&mut cx), Poll::Ready(None)));
    assert!(f.done());
    for _ in 0..3 {
        assert!(matches!(f.poll_next(&mut cx), Poll::Ready(None)));
    }
    assert!(f.done());
    assert!(!f.into_inner().misused);
}
