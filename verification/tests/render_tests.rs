use lagom_ecs::render::DrawCmd;
use lagom_ecs::render::DrawQueue;

#[test]
fn draw_buffers_in_order() {
    let mut q = DrawQueue::new();
    assert_eq!(q.len(), 0);

    q.draw(0, 4, 10);
    q.draw(1, 8, 20);
    assert_eq!(q.len(), 2);

    let frame = q.take_frame();
    assert_eq!(frame, vec![
        DrawCmd { texture: 0, x: 4, y: 10 },
        DrawCmd { texture: 1, x: 8, y: 20 },
    ]);
    assert_eq!(q.len(), 0);
}

#[test]
fn take_frame_leaves_queue_reusable() {
    let mut q = DrawQueue::new();
    q.draw(3, 1, 2);
    let first = q.take_frame();
    assert_eq!(first.len(), 1);

    q.draw(5, 6, 7);
    let second = q.take_frame();
    assert_eq!(second, vec![DrawCmd { texture: 5, x: 6, y: 7 }]);
}
