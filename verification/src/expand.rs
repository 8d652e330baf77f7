//! What the `local_queue` attribute makes of the impl block that it stands on.
use vstd::prelude::*;

verus! {

/// The kinds of queues that the attribute can stand on.
#[derive(Clone, Copy, Debug, PartialEq, Eq, Structural)]
pub enum Variant {
    TaskQueue,
    BackgroundQueue,
    BatchReducer,
}

/// The cells of which the buffer of a queue is made.
#[derive(Clone, Copy, Debug, PartialEq, Eq, Structural)]
pub enum CellKind {
    /// Tasks with receivers.
    TaskRef,
    /// Plain tasks.
    BufferCell,
}

/// How the impl block itself is written out again.
#[derive(Clone, Copy, Debug, PartialEq, Eq, Structural)]
pub enum ImplKind {
    /// As it stands, with its async functions made to fit a trait.
    AsyncTrait,
    /// As an impl of `BatchReducer` that holds the task type alone.
    TaskOnly,
}

/// The arguments of the attribute.
#[derive(Clone, Copy, Debug, PartialEq, Eq, Structural)]
pub struct QueueOpt {
    pub buffer_size: usize,
}

impl Default for QueueOpt {
    fn default() -> (opt: Self)
        ensures
            opt.buffer_size == 512,
    {
        QueueOpt { buffer_size: 512 }
    }
}

/// What of an impl block the attribute looks at: the path of the trait, if there is one, and
/// for each item the name of the associated type that it defines, if it defines one.
pub struct Outline {
    pub trait_path: Option<Vec<String>>,
    pub items: Vec<Option<String>>,
}

/// An outline in terms of characters.
pub struct OutlineView {
    pub trait_path: Option<Seq<Seq<char>>>,
    pub items: Seq<Option<Seq<char>>>,
}

/// A name in terms of characters.
pub open spec fn name_view(name: Option<String>) -> Option<Seq<char>> {
    match name {
        Some(name) => Some(name@),
        None => None,
    }
}

impl View for Outline {
    type V = OutlineView;

    open spec fn view(&self) -> OutlineView {
        OutlineView {
            trait_path: match self.trait_path {
                Some(path) => Some(path@.map_values(|segment: String| segment@)),
                None => None,
            },
            items: self.items@.map_values(|name: Option<String>| name_view(name)),
        }
    }
}

/// What is written out for an impl block.
#[derive(Clone, Copy, Debug, PartialEq, Eq, Structural)]
pub struct Plan {
    pub variant: Variant,
    pub cell: CellKind,
    pub queue_impl: ImplKind,
    pub buffer_size: usize,
    /// The item that defines the task type.
    pub task_item: usize,
}

/// Why nothing can be written out for an impl block.
pub enum ExpandError {
    /// What the attribute stands on is no impl block.
    Syntax(String),
    /// The arguments of the attribute are none that it takes.
    Attribute(String),
    TooLarge,
    TooSmall,
    NotPowerOfTwo,
    NotAQueue,
    MissingTask,
}

impl ExpandError {
    /// What the user is told.
    pub fn message(&self) -> (message: String)
        ensures
            message@ == match *self {
                ExpandError::Syntax(text) => text@,
                ExpandError::Attribute(text) => text@,
                ExpandError::TooLarge => if usize::BITS == 64 {
                    "buffer_size must not exceed 4294967295"@
                } else {
                    "buffer_size must not exceed 65535"@
                },
                ExpandError::TooSmall => "buffer_size must be at least 64"@,
                ExpandError::NotPowerOfTwo => "buffer_size must be a power of 2"@,
                ExpandError::NotAQueue =>
                    "must be used on TaskQueue, BackgroundQueue or BatchReducer"@,
                ExpandError::MissingTask => "missing `Task` in implementation"@,
            },
    {
        match self {
            ExpandError::Syntax(text) => text.clone(),
            ExpandError::Attribute(text) => text.clone(),
            ExpandError::TooLarge => if usize::BITS == 64 {
                "buffer_size must not exceed 4294967295".to_owned()
            } else {
                "buffer_size must not exceed 65535".to_owned()
            },
            ExpandError::TooSmall => "buffer_size must be at least 64".to_owned(),
            ExpandError::NotPowerOfTwo => "buffer_size must be a power of 2".to_owned(),
            ExpandError::NotAQueue =>
                "must be used on TaskQueue, BackgroundQueue or BatchReducer".to_owned(),
            ExpandError::MissingTask => "missing `Task` in implementation".to_owned(),
        }
    }
}

/// The name of a trait, alone or behind the name of this library.
pub open spec fn names_trait(path: Seq<Seq<char>>, name: Seq<char>) -> bool {
    ||| path == seq![name]
    ||| path == seq!["stack_queue"@, name]
}

/// The kind of queue that a trait stands for.
pub open spec fn variant_of(path: Option<Seq<Seq<char>>>) -> Option<Variant> {
    match path {
        None => None,
        Some(path) => if names_trait(path, "TaskQueue"@) {
            Some(Variant::TaskQueue)
        } else if names_trait(path, "BackgroundQueue"@) {
            Some(Variant::BackgroundQueue)
        } else if names_trait(path, "BatchReducer"@) {
            Some(Variant::BatchReducer)
        } else {
            None
        },
    }
}

/// The first item from index `i` on that defines the task type.
pub open spec fn task_item_from(items: Seq<Option<Seq<char>>>, i: int) -> Option<int>
    decreases items.len() - i,
{
    if i < 0 || i >= items.len() {
        None
    } else if items[i] == Some("Task"@) {
        Some(i)
    } else {
        task_item_from(items, i + 1)
    }
}

/// What is written out for an impl block, or why nothing is. What is wrong with the block itself
/// is reported before what is wrong with the arguments, then the size, the trait and the task
/// type are looked at.
pub open spec fn planned(
    opt: Result<QueueOpt, Seq<char>>,
    outline: Result<OutlineView, Seq<char>>,
    r: Result<Plan, ExpandError>,
) -> bool {
    match outline {
        Err(text) => r matches Err(ExpandError::Syntax(told)) && told@ == text,
        Ok(outline) => match opt {
            Err(text) => r matches Err(ExpandError::Attribute(told)) && told@ == text,
            Ok(opt) => if opt.buffer_size > crate::MAX_BUFFER_LEN {
                r matches Err(ExpandError::TooLarge)
            } else if opt.buffer_size < crate::MIN_BUFFER_LEN {
                r matches Err(ExpandError::TooSmall)
            } else if !vstd::arithmetic::power2::is_pow2(opt.buffer_size as int) {
                r matches Err(ExpandError::NotPowerOfTwo)
            } else {
                match variant_of(outline.trait_path) {
                    None => r matches Err(ExpandError::NotAQueue),
                    Some(variant) => match task_item_from(outline.items, 0) {
                        None => r matches Err(ExpandError::MissingTask),
                        Some(item) => r matches Ok(plan) && plan.variant == variant
                            && plan.buffer_size == opt.buffer_size && plan.task_item == item
                            && plan.cell == (match variant {
                            Variant::TaskQueue => CellKind::TaskRef,
                            _ => CellKind::BufferCell,
                        }) && plan.queue_impl == (match variant {
                            Variant::BatchReducer => ImplKind::TaskOnly,
                            _ => ImplKind::AsyncTrait,
                        }),
                    },
                }
            },
        },
    }
}

/// A result in terms of characters.
pub open spec fn outline_view(r: Result<Outline, String>) -> Result<OutlineView, Seq<char>> {
    match r {
        Ok(outline) => Ok(outline@),
        Err(text) => Err(text@),
    }
}

/// The arguments of the attribute in terms of characters.
pub open spec fn opt_view(opt: Result<QueueOpt, String>) -> Result<QueueOpt, Seq<char>> {
    match opt {
        Ok(opt) => Ok(opt),
        Err(text) => Err(text@),
    }
}

/// Whether a path names a trait.
fn is_trait(path: &Vec<String>, name: &str) -> (b: bool)
    ensures
        b == names_trait(path@.map_values(|segment: String| segment@), name@),
{
    let name = name.to_owned();
    let ghost segments = path@.map_values(|segment: String| segment@);
    assert(seq![name@].len() == 1 && seq!["stack_queue"@, name@].len() == 2);
    if path.len() == 1 {
        let b = path[0] == name;
        proof {
            if b {
                assert(segments =~= seq![name@]);
            } else {
                assert(segments[0] != seq![name@][0]);
            }
        }
        b
    } else if path.len() == 2 {
        let b = path[0] == "stack_queue".to_owned() && path[1] == name;
        proof {
            let full = seq!["stack_queue"@, name@];
            if b {
                assert(segments =~= full);
            } else {
                assert(segments[0] != full[0] || segments[1] != full[1]);
            }
        }
        b
    } else {
        false
    }
}

/// The kind of queue that the trait of an impl block stands for.
fn variant(path: &Option<Vec<String>>) -> (variant: Option<Variant>)
    ensures
        variant == variant_of(
            match *path {
                Some(path) => Some(path@.map_values(|segment: String| segment@)),
                None => None,
            },
        ),
{
    match path {
        None => None,
        Some(path) => if is_trait(path, "TaskQueue") {
            Some(Variant::TaskQueue)
        } else if is_trait(path, "BackgroundQueue") {
            Some(Variant::BackgroundQueue)
        } else if is_trait(path, "BatchReducer") {
            Some(Variant::BatchReducer)
        } else {
            None
        },
    }
}

/// The first item that defines the task type.
fn task_item(items: &Vec<Option<String>>) -> (item: Option<usize>)
    ensures
        match task_item_from(items@.map_values(|name: Option<String>| name_view(name)), 0) {
            Some(i) => item matches Some(found) && found == i,
            None => item is None,
        },
{
    let ghost names = items@.map_values(|name: Option<String>| name_view(name));
    let mut i: usize = 0;
    while i < items.len()
        invariant
            i <= items@.len(),
            names == items@.map_values(|name: Option<String>| name_view(name)),
            task_item_from(names, 0) == task_item_from(names, i as int),
        decreases items@.len() - i,
    {
        match &items[i] {
            Some(name) => {
                if *name == "Task".to_owned() {
                    return Some(i);
                }
            },
            None => {},
        }
        i = i + 1;
    }
    None
}

/// Decides what is written out for an impl block.
pub fn plan(opt: Result<QueueOpt, String>, outline: Result<Outline, String>) -> (r: Result<
    Plan,
    ExpandError,
>)
    ensures
        planned(opt_view(opt), outline_view(outline), r),
        r matches Ok(plan) ==> opt matches Ok(given) && plan.buffer_size == given.buffer_size,
{
    let outline = match outline {
        Ok(outline) => outline,
        Err(text) => {
            return Err(ExpandError::Syntax(text));
        },
    };
    let buffer_size = match opt {
        Ok(opt) => opt.buffer_size,
        Err(text) => {
            return Err(ExpandError::Attribute(text));
        },
    };
    if buffer_size > crate::MAX_BUFFER_LEN {
        return Err(ExpandError::TooLarge);
    }
    if buffer_size < crate::MIN_BUFFER_LEN {
        return Err(ExpandError::TooSmall);
    }
    if !crate::helpers::is_power_of_two(buffer_size) {
        return Err(ExpandError::NotPowerOfTwo);
    }
    let variant = match variant(&outline.trait_path) {
        Some(variant) => variant,
        None => {
            return Err(ExpandError::NotAQueue);
        },
    };
    let task_item = match task_item(&outline.items) {
        Some(item) => item,
        None => {
            return Err(ExpandError::MissingTask);
        },
    };
    let cell = match variant {
        Variant::TaskQueue => CellKind::TaskRef,
        Variant::BackgroundQueue => CellKind::BufferCell,
        Variant::BatchReducer => CellKind::BufferCell,
    };
    let queue_impl = match variant {
        Variant::TaskQueue => ImplKind::AsyncTrait,
        Variant::BackgroundQueue => ImplKind::AsyncTrait,
        Variant::BatchReducer => ImplKind::TaskOnly,
    };
    Ok(Plan { variant, cell, queue_impl, buffer_size, task_item })
}

/// Whether `syn` can make `outcome` of the text of an impl block: the idents along the path of its
/// trait, if it has one, and for each item the ident of the associated type that it defines, if it
/// defines one; or the message of the error, if the text is no impl block. A text has one outcome
/// for each lexer that it may meet.
pub uninterp spec fn parsed_item_impl(
    text: Seq<char>,
    outcome: Result<OutlineView, Seq<char>>,
) -> bool;

/// Calls `syn::parse_str` for a `syn::ItemImpl`, and keeps the idents of the path in its `trait_`
/// and of the `ImplItem::Type`s among its `items`, in order, or the message of the error. Claims
/// that the outcome is one that the text can have, and nothing else of it. Which one it is rests on
/// the lexer: within a procedural macro that is the compiler's, which goes by the edition, and
/// elsewhere the one that comes with `proc_macro2`. How deep the text may nest rests on the stack.
#[verifier::external_body]
fn parse_item_impl(text: &str) -> (r: Result<Outline, String>)
    ensures
        parsed_item_impl(text@, outline_view(r)),
{
    match syn::parse_str::<syn::ItemImpl>(text) {
        Ok(block) => Ok(Outline {
            trait_path: block.trait_.map(
                |(_, path, _)| path.segments.into_iter().map(|s| s.ident.to_string()).collect(),
            ),
            items: block.items.into_iter().map(|item| match item {
                syn::ImplItem::Type(item) => Some(item.ident.to_string()),
                _ => None,
            }).collect(),
        }),
        Err(err) => Err(err.to_string()),
    }
}

/// Decides what the attribute, used with the arguments `opt`, writes out for the impl block in
/// `text`.
pub fn local_queue(opt: Result<QueueOpt, String>, text: &str) -> (r: Result<Plan, ExpandError>)
    ensures
        exists|outcome: Result<OutlineView, Seq<char>>| #[trigger]
            parsed_item_impl(text@, outcome) && planned(opt_view(opt), outcome, r),
        r matches Ok(plan) ==> opt matches Ok(given) && plan.buffer_size == given.buffer_size,
{
    let outline = parse_item_impl(text);
    assert(parsed_item_impl(text@, outline_view(outline)));
    plan(opt, outline)
}

/// A part of what is written out.
#[derive(Clone, Copy, Debug, PartialEq, Eq)]
pub enum Piece {
    /// These tokens.
    Text(&'static str),
    /// The type that the impl block is for.
    SelfType,
    /// The type that the block defines as its task type.
    TaskType,
    /// The impl block with all its items, without the attributes that stand on it.
    Block,
    /// The size of the buffer.
    BufferSize,
    /// The beginning of a braced group.
    Open,
    /// The end of a braced group.
    Close,
}

/// The type of the cells of a buffer.
pub open spec fn cell_pieces(cell: CellKind) -> Seq<Piece> {
    match cell {
        CellKind::TaskRef => seq![
            Piece::Text("stack_queue::task::TaskRef<"),
            Piece::SelfType,
            Piece::Text(">"),
        ],
        CellKind::BufferCell => seq![
            Piece::Text("stack_queue::BufferCell<"),
            Piece::TaskType,
            Piece::Text(">"),
        ],
    }
}

/// The type of the queue.
pub open spec fn queue_pieces(cell: CellKind) -> Seq<Piece> {
    seq![Piece::Text("stack_queue::StackQueue<")] + cell_pieces(cell) + seq![
        Piece::Text(","),
        Piece::BufferSize,
        Piece::Text(">"),
    ]
}

/// The impl block as it is written out again.
pub open spec fn impl_pieces(queue_impl: ImplKind) -> Seq<Piece> {
    match queue_impl {
        ImplKind::AsyncTrait => seq![
            Piece::Text("#[stack_queue::async_t::async_trait]"),
            Piece::Block,
        ],
        ImplKind::TaskOnly => seq![
            Piece::Text("impl stack_queue::BatchReducer for"),
            Piece::SelfType,
            Piece::Open,
            Piece::Text("type Task ="),
            Piece::TaskType,
            Piece::Text(";"),
            Piece::Close,
        ],
    }
}

/// The impl of `LocalQueue`, with the thread locals of `std` or with those of `loom`.
pub open spec fn local_pieces(cell: CellKind, loom: bool) -> Seq<Piece> {
    seq![
        Piece::Text(
            if loom {
                "#[cfg(loom)] impl stack_queue::LocalQueue<"
            } else {
                "#[cfg(not(loom))] impl stack_queue::LocalQueue<"
            },
        ),
        Piece::BufferSize,
        Piece::Text("> for"),
        Piece::SelfType,
        Piece::Open,
        Piece::Text("type BufferCell ="),
    ] + cell_pieces(cell) + seq![
        Piece::Text(
            if loom {
                "; fn queue() -> &'static stack_queue::loom::thread::LocalKey<"
            } else {
                "; fn queue() -> &'static std::thread::LocalKey<"
            },
        ),
    ] + queue_pieces(cell) + seq![
        Piece::Text(">"),
        Piece::Open,
        Piece::Text(
            if loom {
                "stack_queue::loom::thread_local!"
            } else {
                "thread_local!"
            },
        ),
        Piece::Open,
        Piece::Text("static QUEUE:"),
    ] + queue_pieces(cell) + seq![
        Piece::Text("= stack_queue::StackQueue::default();"),
        Piece::Close,
        Piece::Text("&QUEUE"),
        Piece::Close,
        Piece::Close,
    ]
}

/// All that is written out.
pub open spec fn expanded(plan: Plan) -> Seq<Piece> {
    impl_pieces(plan.queue_impl) + local_pieces(plan.cell, false) + local_pieces(plan.cell, true)
}

fn push_cell(pieces: &mut Vec<Piece>, cell: CellKind)
    ensures
        final(pieces)@ == old(pieces)@ + cell_pieces(cell),
{
    match cell {
        CellKind::TaskRef => {
            pieces.push(Piece::Text("stack_queue::task::TaskRef<"));
            pieces.push(Piece::SelfType);
            pieces.push(Piece::Text(">"));
        },
        CellKind::BufferCell => {
            pieces.push(Piece::Text("stack_queue::BufferCell<"));
            pieces.push(Piece::TaskType);
            pieces.push(Piece::Text(">"));
        },
    }
    assert(pieces@ =~= old(pieces)@ + cell_pieces(cell));
}

fn push_queue(pieces: &mut Vec<Piece>, cell: CellKind)
    ensures
        final(pieces)@ == old(pieces)@ + queue_pieces(cell),
{
    pieces.push(Piece::Text("stack_queue::StackQueue<"));
    push_cell(pieces, cell);
    pieces.push(Piece::Text(","));
    pieces.push(Piece::BufferSize);
    pieces.push(Piece::Text(">"));
    assert(pieces@ =~= old(pieces)@ + queue_pieces(cell));
}

fn push_impl(pieces: &mut Vec<Piece>, queue_impl: ImplKind)
    ensures
        final(pieces)@ == old(pieces)@ + impl_pieces(queue_impl),
{
    match queue_impl {
        ImplKind::AsyncTrait => {
            pieces.push(Piece::Text("#[stack_queue::async_t::async_trait]"));
            pieces.push(Piece::Block);
        },
        ImplKind::TaskOnly => {
            pieces.push(Piece::Text("impl stack_queue::BatchReducer for"));
            pieces.push(Piece::SelfType);
            pieces.push(Piece::Open);
            pieces.push(Piece::Text("type Task ="));
            pieces.push(Piece::TaskType);
            pieces.push(Piece::Text(";"));
            pieces.push(Piece::Close);
        },
    }
    assert(pieces@ =~= old(pieces)@ + impl_pieces(queue_impl));
}

fn push_local(pieces: &mut Vec<Piece>, cell: CellKind, loom: bool)
    ensures
        final(pieces)@ == old(pieces)@ + local_pieces(cell, loom),
{
    pieces.push(
        Piece::Text(
            if loom {
                "#[cfg(loom)] impl stack_queue::LocalQueue<"
            } else {
                "#[cfg(not(loom))] impl stack_queue::LocalQueue<"
            },
        ),
    );
    pieces.push(Piece::BufferSize);
    pieces.push(Piece::Text("> for"));
    pieces.push(Piece::SelfType);
    pieces.push(Piece::Open);
    pieces.push(Piece::Text("type BufferCell ="));
    push_cell(pieces, cell);
    pieces.push(
        Piece::Text(
            if loom {
                "; fn queue() -> &'static stack_queue::loom::thread::LocalKey<"
            } else {
                "; fn queue() -> &'static std::thread::LocalKey<"
            },
        ),
    );
    push_queue(pieces, cell);
    pieces.push(Piece::Text(">"));
    pieces.push(Piece::Open);
    pieces.push(
        Piece::Text(
            if loom {
                "stack_queue::loom::thread_local!"
            } else {
                "thread_local!"
            },
        ),
    );
    pieces.push(Piece::Open);
    pieces.push(Piece::Text("static QUEUE:"));
    push_queue(pieces, cell);
    pieces.push(Piece::Text("= stack_queue::StackQueue::default();"));
    pieces.push(Piece::Close);
    pieces.push(Piece::Text("&QUEUE"));
    pieces.push(Piece::Close);
    pieces.push(Piece::Close);
    assert(pieces@ =~= old(pieces)@ + local_pieces(cell, loom));
}

/// What is written out for an impl block, piece by piece: the block itself, and the impls that give
/// its type a thread local queue.
pub fn expansion(plan: &Plan) -> (pieces: Vec<Piece>)
    ensures
        pieces@ == expanded(*plan),
{
    let mut pieces: Vec<Piece> = Vec::new();
    push_impl(&mut pieces, plan.queue_impl);
    push_local(&mut pieces, plan.cell, false);
    push_local(&mut pieces, plan.cell, true);
    assert(pieces@ =~= expanded(*plan));
    pieces
}

} // verus!
