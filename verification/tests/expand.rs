use stack_queue::expand::{
    expansion, local_queue, plan, CellKind, ExpandError, ImplKind, Outline, Piece, Plan, QueueOpt,
    Variant,
};

fn opt(buffer_size: usize) -> Result<QueueOpt, String> {
    Ok(QueueOpt { buffer_size })
}

fn message(r: Result<Plan, ExpandError>) -> String {
    match r {
        Ok(_) => panic!("the block is in order"),
        Err(err) => err.message(),
    }
}

fn outline(path: &[&str], items: &[Option<&str>]) -> Result<Outline, String> {
    Ok(Outline {
        trait_path: Some(path.iter().map(|s| s.to_string()).collect()),
        items: items.iter().map(|s| s.map(|s| s.to_string())).collect(),
    })
}

const ECHO: &str = "impl TaskQueue for EchoQueue {
    type Value = usize;
    type Task = usize;
    async fn batch_process<const N: usize>(
        batch: PendingAssignment<'async_trait, Self, N>,
    ) -> CompletionReceipt<Self> {
        batch.into_assignment().map(|val| val)
    }
}";

#[test]
fn a_task_queue_is_recognised() {
    let plan = local_queue(opt(64), ECHO).ok().unwrap();
    assert_eq!(
        plan,
        Plan {
            variant: Variant::TaskQueue,
            cell: CellKind::TaskRef,
            queue_impl: ImplKind::AsyncTrait,
            buffer_size: 64,
            task_item: 1,
        }
    );
}

#[test]
fn paths_may_name_the_library() {
    let text = "impl stack_queue::BackgroundQueue for Q { type Task = u8; }";
    let plan = local_queue(opt(512), text).ok().unwrap();
    assert_eq!((plan.variant, plan.cell), (Variant::BackgroundQueue, CellKind::BufferCell));
    assert_eq!((plan.queue_impl, plan.task_item), (ImplKind::AsyncTrait, 0));

    let text = "impl BatchReducer for Q { type Task = Vec<u8>; }";
    let plan = local_queue(opt(512), text).ok().unwrap();
    assert_eq!((plan.variant, plan.cell), (Variant::BatchReducer, CellKind::BufferCell));
    assert_eq!(plan.queue_impl, ImplKind::TaskOnly);
}

#[test]
fn the_default_size_is_accepted() {
    let opt = QueueOpt::default();
    assert_eq!(opt.buffer_size, 512);
    assert_eq!(local_queue(Ok(opt), ECHO).ok().unwrap().buffer_size, 512);
}

#[test]
fn sizes_are_checked() {
    assert_eq!(
        message(local_queue(opt(1 << 32), ECHO)),
        "buffer_size must not exceed 4294967295"
    );
    assert_eq!(message(local_queue(opt(32), ECHO)), "buffer_size must be at least 64");
    assert_eq!(message(local_queue(opt(0), ECHO)), "buffer_size must be at least 64");
    assert_eq!(message(local_queue(opt(100), ECHO)), "buffer_size must be a power of 2");
    assert!(local_queue(opt(1 << 31), ECHO).is_ok());
}

#[test]
fn traits_are_checked() {
    let wrong = "must be used on TaskQueue, BackgroundQueue or BatchReducer";
    assert_eq!(message(local_queue(opt(64), "impl Clone for Q { type Task = u8; }")), wrong);
    assert_eq!(message(local_queue(opt(64), "impl Q { type Task = u8; }")), wrong);
    assert_eq!(
        message(local_queue(opt(64), "impl other::TaskQueue for Q { type Task = u8; }")),
        wrong
    );
    assert_eq!(
        message(local_queue(opt(64), "impl stack_queue::queue::TaskQueue for Q {}")),
        wrong
    );
}

#[test]
fn the_task_type_is_needed() {
    assert_eq!(
        message(local_queue(opt(64), "impl TaskQueue for Q { type Value = u8; }")),
        "missing `Task` in implementation"
    );
}

#[test]
fn errors_are_reported_in_order() {
    let text = "struct Q;";
    assert!(matches!(
        local_queue(Err("unknown field".to_string()), text),
        Err(ExpandError::Syntax(_))
    ));
    assert_eq!(message(local_queue(Err("unknown field".to_string()), ECHO)), "unknown field");
    let none = outline(&["Clone"], &[]);
    assert!(matches!(plan(opt(32), none), Err(ExpandError::TooSmall)));
    let none = outline(&["Clone"], &[]);
    assert!(matches!(plan(opt(64), none), Err(ExpandError::NotAQueue)));
    let some = outline(&["BatchReducer"], &[None, Some("Task"), Some("Task")]);
    assert_eq!(plan(opt(64), some).ok().unwrap().task_item, 1);
}

#[test]
fn bodies_may_hold_any_literal() {
    for literal in ["c\"x\"", "cr\"x\"", "b\"x\"", "r#\"x\"#", "b'x'", "1u8", "1e3", "'x'"] {
        let text = format!("impl TaskQueue for Q {{ type Task = u8; const A: T = {literal}; }}");
        let plan = local_queue(opt(64), &text).ok().unwrap();
        assert_eq!((plan.variant, plan.task_item), (Variant::TaskQueue, 0));
        let text = format!("impl TaskQueue for Q {{ fn f() {{ g({literal}) }} type Task = u8; }}");
        assert_eq!(local_queue(opt(64), &text).ok().unwrap().task_item, 1);
    }
}

/// What is written out, with names in the place of pieces.
fn written(text: &str) -> String {
    let plan = local_queue(opt(128), text).ok().unwrap();
    let size = plan.buffer_size.to_string();
    let pieces: Vec<&str> = expansion(&plan)
        .into_iter()
        .map(|piece| match piece {
            Piece::Text(text) => text,
            Piece::SelfType => "Q",
            Piece::TaskType => "u8",
            Piece::Block => "BLOCK",
            Piece::BufferSize => size.as_str(),
            Piece::Open => "{",
            Piece::Close => "}",
        })
        .collect();
    pieces.join(" ")
}

fn local(cell: &str) -> String {
    let queue = format!("stack_queue::StackQueue< {cell} , 128 >");
    let with = |cfg: &str, key: &str, local: &str| {
        format!(
            "#[cfg({cfg})] impl stack_queue::LocalQueue< 128 > for Q {{ type BufferCell = {cell} \
             ; fn queue() -> &'static {key}< {queue} > {{ {local}! {{ static QUEUE: {queue} \
             = stack_queue::StackQueue::default(); }} &QUEUE }} }}"
        )
    };
    format!(
        "{} {}",
        with("not(loom)", "std::thread::LocalKey", "thread_local"),
        with("loom", "stack_queue::loom::thread::LocalKey", "stack_queue::loom::thread_local")
    )
}

#[test]
fn impls_are_written_out() {
    let task = local("stack_queue::task::TaskRef< Q >");
    let plain = local("stack_queue::BufferCell< u8 >");
    assert_eq!(
        written("impl TaskQueue for Q { type Task = u8; type Value = u8; }"),
        format!("#[stack_queue::async_t::async_trait] BLOCK {task}")
    );
    assert_eq!(
        written("impl BackgroundQueue for Q { type Task = u8; }"),
        format!("#[stack_queue::async_t::async_trait] BLOCK {plain}")
    );
    assert_eq!(
        written("impl BatchReducer for Q { type Task = u8; fn f() {} }"),
        format!("impl stack_queue::BatchReducer for Q {{ type Task = u8 ; }} {plain}")
    );
    for name in ["TaskQueue", "BackgroundQueue", "BatchReducer"] {
        assert_eq!(
            written(&format!("impl {name} for Q {{ type Task = u8; }}")),
            written(&format!("impl stack_queue::{name} for Q {{ type Task = u8; }}"))
        );
    }
}
